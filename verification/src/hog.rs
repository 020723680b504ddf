//! Layout of the histogram-of-oriented-gradients descriptor.
use vstd::prelude::*;
use crate::text::{decimal, push_decimal};
use crate::error::IrisError;

verus! {

/// Histogram of Oriented Gradients descriptor parameters.
pub struct HogDescriptor {
    pub cell_size: usize,
    pub block_size: usize,
    pub nbins: usize,
}

/// Cell and block counts of a HOG descriptor for one image size.
#[derive(Clone, Copy, Debug, PartialEq, Eq)]
pub struct HogLayout {
    pub n_cells_y: usize,
    pub n_cells_x: usize,
    pub n_blocks_y: usize,
    pub n_blocks_x: usize,
    pub block_desc_len: usize,
    pub total_len: usize,
}

/// Blocks that fit along a side of `cells` cells: `cells - (block - 1)`, at least 0.
pub open spec fn blocks_along(cells: int, block: int) -> int {
    if cells >= block - 1 { cells - (block - 1) } else { 0 }
}

/// The text `Image {w}x{h} too small for cell_size {cell}`, numbers in decimal.
pub open spec fn too_small_text(w: usize, h: usize, cell: usize) -> Seq<char> {
    "Image "@ + decimal(w as nat) + "x"@ + decimal(h as nat) + " too small for cell_size "@ + decimal(cell as nat)
}

/// Text of the error for an image smaller than one cell.
fn too_small_message(w: usize, h: usize, cell: usize) -> (m: String)
    ensures
        m@ == too_small_text(w, h, cell),
{
    let mut m = String::from_str("Image ");
    push_decimal(&mut m, w);
    m.append("x");
    push_decimal(&mut m, h);
    m.append(" too small for cell_size ");
    push_decimal(&mut m, cell);
    m
}

impl HogDescriptor {
    /// Creates a descriptor with `cell_size`-pixel cells, blocks of
    /// `block_size` by `block_size` cells and `nbins` orientation bins.
    pub fn new(cell_size: usize, block_size: usize, nbins: usize) -> (d: Self)
        ensures
            d.cell_size == cell_size,
            d.block_size == block_size,
            d.nbins == nbins,
    {
        HogDescriptor { cell_size, block_size, nbins }
    }

    /// Layout of the descriptor of an `h` by `w` image: whole cells along each
    /// side, every position of a block of cells, and the concatenated length.
    /// Images smaller than one cell are rejected.
    pub fn layout(&self, h: usize, w: usize) -> (r: Result<HogLayout, IrisError>)
        requires
            self.cell_size > 0,
            self.block_size > 0,
            self.block_size * self.block_size <= usize::MAX,
            self.block_size * self.block_size * self.nbins <= usize::MAX,
            blocks_along(h as int / self.cell_size as int, self.block_size as int) * blocks_along(
                w as int / self.cell_size as int,
                self.block_size as int,
            ) <= usize::MAX,
            blocks_along(h as int / self.cell_size as int, self.block_size as int) * blocks_along(
                w as int / self.cell_size as int,
                self.block_size as int,
            ) * (self.block_size * self.block_size * self.nbins) <= usize::MAX,
        ensures
            (h < self.cell_size || w < self.cell_size) <==> r is Err,
            r matches Err(e) ==> (e matches IrisError::InvalidParameter(m) && m@ == too_small_text(w, h, self.cell_size)),
            r matches Ok(l) ==> {
                &&& l.n_cells_y == h / self.cell_size
                &&& l.n_cells_x == w / self.cell_size
                &&& l.n_blocks_y == blocks_along(l.n_cells_y as int, self.block_size as int)
                &&& l.n_blocks_x == blocks_along(l.n_cells_x as int, self.block_size as int)
                &&& l.block_desc_len == self.block_size * self.block_size * self.nbins
                &&& l.total_len == l.n_blocks_y * l.n_blocks_x * l.block_desc_len
            },
    {
        if h < self.cell_size || w < self.cell_size {
            return Err(IrisError::InvalidParameter(too_small_message(w, h, self.cell_size)));
        }
        let n_cells_y = h / self.cell_size;
        let n_cells_x = w / self.cell_size;
        let n_blocks_y = n_cells_y.saturating_sub(self.block_size - 1);
        let n_blocks_x = n_cells_x.saturating_sub(self.block_size - 1);
        let block_desc_len = self.block_size * self.block_size * self.nbins;
        let total_len = n_blocks_y * n_blocks_x * block_desc_len;
        Ok(HogLayout { n_cells_y, n_cells_x, n_blocks_y, n_blocks_x, block_desc_len, total_len })
    }
}

} // verus!
