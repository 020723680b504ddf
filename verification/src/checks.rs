//! Argument checks of the image operations: which inputs each operation
//! rejects, and with which error.
use vstd::prelude::*;
use crate::error::IrisError;
use crate::text::{decimal, push_decimal};

verus! {

/// Smoothing kernels must have an odd side.
pub fn check_odd_kernel(kernel_size: usize) -> (r: Result<(), IrisError>)
    ensures
        kernel_size % 2 == 1 <==> r is Ok,
        r matches Err(e) ==> (e matches IrisError::InvalidParameter(m) && m@ == "Kernel size must be odd"@),
{
    if kernel_size % 2 == 0 {
        return Err(IrisError::InvalidParameter("Kernel size must be odd".to_owned()));
    }
    Ok(())
}

/// A convolution kernel needs at least one row, and its first row at least
/// one entry.
pub fn check_kernel_nonempty(rows: usize, first_row_len: usize) -> (r: Result<(), IrisError>)
    ensures
        (rows > 0 && first_row_len > 0) <==> r is Ok,
        r matches Err(e) ==> (e matches IrisError::InvalidParameter(m) && m@ == "Kernel must be non-empty"@),
{
    if rows == 0 || first_row_len == 0 {
        return Err(IrisError::InvalidParameter("Kernel must be non-empty".to_owned()));
    }
    Ok(())
}

/// The image has exactly `want` channels; otherwise the operation is
/// rejected with `message`.
pub fn check_channels(c: usize, want: usize, message: &str) -> (r: Result<(), IrisError>)
    ensures
        c == want <==> r is Ok,
        r matches Err(e) ==> (e matches IrisError::InvalidParameter(m) && m@ == message@),
{
    if c != want {
        return Err(IrisError::InvalidParameter(message.to_owned()));
    }
    Ok(())
}

/// Shape of the image merged from single-channel planes of the given
/// shapes: one channel per plane, with the height and width of the first.
/// No plane at all is an invalid parameter; the first plane whose height or
/// width differs is reported as a mismatch against `[1, h, w]`.
pub fn merged_shape(planes: &Vec<[usize; 3]>) -> (r: Result<[usize; 3], IrisError>)
    ensures
        planes.len() == 0 ==> (r matches Err(e) && (e matches IrisError::InvalidParameter(m) && m@ == "At least one channel is required"@)),
        planes.len() > 0 ==> {
            let h = planes@[0][1];
            let w = planes@[0][2];
            &&& (forall|i: int| 0 <= i < planes.len() ==> (#[trigger] planes@[i])[1] == h && planes@[i][2] == w)
                <==> r is Ok
            &&& r matches Ok(s) ==> s@ == seq![planes.len(), h, w]
            &&& r matches Err(e) ==> exists|i: int|
                0 <= i < planes.len() && ((#[trigger] planes@[i])[1] != h || planes@[i][2] != w) && (forall|j: int|
                    0 <= j < i ==> (#[trigger] planes@[j])[1] == h && planes@[j][2] == w) && (e matches IrisError::DimensionMismatch {
                    expected,
                    actual,
                } && expected@ == seq![1usize, h, w] && actual@ == planes@[i]@)
        },
{
    if planes.len() == 0 {
        return Err(IrisError::InvalidParameter("At least one channel is required".to_owned()));
    }
    let h = planes[0][1];
    let w = planes[0][2];
    let mut i: usize = 0;
    while i < planes.len()
        invariant
            i <= planes.len(),
            planes.len() > 0,
            h == planes@[0][1],
            w == planes@[0][2],
            forall|j: int| 0 <= j < i ==> (#[trigger] planes@[j])[1] == h && planes@[j][2] == w,
        decreases planes.len() - i,
    {
        let p = planes[i];
        if p[1] != h || p[2] != w {
            let expected = vec![1usize, h, w];
            let actual = vec![p[0], p[1], p[2]];
            proof {
                assert(expected@ =~= seq![1usize, h, w]);
                assert(actual@ =~= planes@[i as int]@);
            }
            return Err(IrisError::DimensionMismatch { expected, actual });
        }
        i = i + 1;
    }
    let shape = [planes.len(), h, w];
    proof {
        assert(shape@ =~= seq![planes.len(), h, w]);
    }
    Ok(shape)
}

/// An inpainting mask must have the height and width of the image (else a
/// mismatch of `[c, mask h, mask w]` against the image shape) and exactly one
/// channel.
pub fn check_inpaint_mask(image: [usize; 3], mask: [usize; 3]) -> (r: Result<(), IrisError>)
    ensures
        (image[1] == mask[1] && image[2] == mask[2] && mask[0] == 1) <==> r is Ok,
        (image[1] != mask[1] || image[2] != mask[2]) ==> (r matches Err(e) && (e matches IrisError::DimensionMismatch {
            expected,
            actual,
        } && expected@ == seq![image[0], mask[1], mask[2]] && actual@ == image@)),
        (image[1] == mask[1] && image[2] == mask[2] && mask[0] != 1) ==> (r matches Err(e)
            && (e matches IrisError::InvalidParameter(m) && m@ == "mask must have exactly 1 channel"@)),
{
    if image[1] != mask[1] || image[2] != mask[2] {
        let expected = vec![image[0], mask[1], mask[2]];
        let actual = vec![image[0], image[1], image[2]];
        proof {
            assert(expected@ =~= seq![image[0], mask[1], mask[2]]);
            assert(actual@ =~= image@);
        }
        return Err(IrisError::DimensionMismatch { expected, actual });
    }
    if mask[0] != 1 {
        return Err(IrisError::InvalidParameter("mask must have exactly 1 channel".to_owned()));
    }
    Ok(())
}

/// A template must fit inside the searched image; otherwise the mismatch
/// reports `[src h, src w]` against `[template h, template w]`.
pub fn check_template_fits(src_h: usize, src_w: usize, tpl_h: usize, tpl_w: usize) -> (r: Result<(), IrisError>)
    ensures
        (tpl_h <= src_h && tpl_w <= src_w) <==> r is Ok,
        r matches Err(e) ==> (e matches IrisError::DimensionMismatch { expected, actual } && expected@ == seq![src_h, src_w]
            && actual@ == seq![tpl_h, tpl_w]),
{
    if tpl_h > src_h || tpl_w > src_w {
        let expected = vec![src_h, src_w];
        let actual = vec![tpl_h, tpl_w];
        proof {
            assert(expected@ =~= seq![src_h, src_w]);
            assert(actual@ =~= seq![tpl_h, tpl_w]);
        }
        return Err(IrisError::DimensionMismatch { expected, actual });
    }
    Ok(())
}

/// Two descriptor sets (`n1` by `d1` and `n2` by `d2`) can be matched only
/// when their descriptors have the same length.
pub fn check_descriptor_dims(n1: usize, d1: usize, n2: usize, d2: usize) -> (r: Result<(), IrisError>)
    ensures
        d1 == d2 <==> r is Ok,
        r matches Err(e) ==> (e matches IrisError::DimensionMismatch { expected, actual } && expected@ == seq![n1, d1]
            && actual@ == seq![n2, d2]),
{
    if d1 != d2 {
        let expected = vec![n1, d1];
        let actual = vec![n2, d2];
        proof {
            assert(expected@ =~= seq![n1, d1]);
            assert(actual@ =~= seq![n2, d2]);
        }
        return Err(IrisError::DimensionMismatch { expected, actual });
    }
    Ok(())
}

/// Two histograms can be compared only when they have the same length.
pub fn check_same_length(a: usize, b: usize) -> (r: Result<(), IrisError>)
    ensures
        a == b <==> r is Ok,
        r matches Err(e) ==> (e matches IrisError::DimensionMismatch { expected, actual } && expected@ == seq![a]
            && actual@ == seq![b]),
{
    if a != b {
        let expected = vec![a];
        let actual = vec![b];
        proof {
            assert(expected@ =~= seq![a]);
            assert(actual@ =~= seq![b]);
        }
        return Err(IrisError::DimensionMismatch { expected, actual });
    }
    Ok(())
}

/// The text `low/high length ({low}/{high}) must match channels ({c})`,
/// numbers in decimal.
pub open spec fn bounds_length_text(low: usize, high: usize, c: usize) -> Seq<char> {
    "low/high length ("@ + decimal(low as nat) + "/"@ + decimal(high as nat) + ") must match channels ("@
        + decimal(c as nat) + ")"@
}

/// Text of the error for per-channel bounds of the wrong length.
fn bounds_length_message(low: usize, high: usize, c: usize) -> (m: String)
    ensures
        m@ == bounds_length_text(low, high, c),
{
    let mut m = String::from_str("low/high length (");
    push_decimal(&mut m, low);
    m.append("/");
    push_decimal(&mut m, high);
    m.append(") must match channels (");
    push_decimal(&mut m, c);
    m.append(")");
    m
}

/// Per-channel lower and upper bounds must both have one entry per channel.
pub fn check_bounds_length(c: usize, low_len: usize, high_len: usize) -> (r: Result<(), IrisError>)
    ensures
        (low_len == c && high_len == c) <==> r is Ok,
        r matches Err(e) ==> (e matches IrisError::InvalidParameter(m) && m@ == bounds_length_text(low_len, high_len, c)),
{
    if low_len != c || high_len != c {
        return Err(IrisError::InvalidParameter(bounds_length_message(low_len, high_len, c)));
    }
    Ok(())
}

/// Tile size of a `grid` by `grid` tiling of an `h` by `w` image: whole tiles
/// of `h / grid` by `w / grid` pixels. No grid, or tiles of no pixels, are
/// rejected.
pub fn tile_layout(h: usize, w: usize, grid: usize) -> (r: Result<(usize, usize), IrisError>)
    ensures
        (grid > 0 && h / grid > 0 && w / grid > 0) <==> r is Ok,
        r matches Ok(t) ==> t.0 == h / grid && t.1 == w / grid,
        grid == 0 ==> (r matches Err(e) && (e matches IrisError::InvalidParameter(m) && m@ == "grid_size must be > 0"@)),
        (grid > 0 && (h / grid == 0 || w / grid == 0)) ==> (r matches Err(e)
            && (e matches IrisError::InvalidParameter(m) && m@ == "Image too small for given grid_size"@)),
{
    if grid == 0 {
        return Err(IrisError::InvalidParameter("grid_size must be > 0".to_owned()));
    }
    let tile_h = h / grid;
    let tile_w = w / grid;
    if tile_h == 0 || tile_w == 0 {
        return Err(IrisError::InvalidParameter("Image too small for given grid_size".to_owned()));
    }
    Ok((tile_h, tile_w))
}

/// Downsampling needs an image of at least 2 by 2 pixels.
pub fn check_pyr_down(h: usize, w: usize) -> (r: Result<(), IrisError>)
    ensures
        (h >= 2 && w >= 2) <==> r is Ok,
        r matches Err(e) ==> (e matches IrisError::InvalidParameter(m) && m@ == "Image too small for pyr_down (need at least 2x2)"@),
{
    if h < 2 || w < 2 {
        return Err(IrisError::InvalidParameter("Image too small for pyr_down (need at least 2x2)".to_owned()));
    }
    Ok(())
}

/// A matrix whose rows have the lengths `row_lens` is `rows` by `cols`.
pub fn is_matrix_shape(row_lens: &Vec<usize>, rows: usize, cols: usize) -> (b: bool)
    ensures
        b == (row_lens.len() == rows && forall|i: int| 0 <= i < row_lens.len() ==> #[trigger] row_lens@[i] == cols),
{
    if row_lens.len() != rows {
        return false;
    }
    let mut i: usize = 0;
    while i < row_lens.len()
        invariant
            i <= row_lens.len(),
            forall|j: int| 0 <= j < i ==> #[trigger] row_lens@[j] == cols,
        decreases row_lens.len() - i,
    {
        if row_lens[i] != cols {
            return false;
        }
        i = i + 1;
    }
    true
}

} // verus!
