//! Rasterisation of lines, rectangles, circles and markers onto a
//! channel-planar pixel buffer.
use vstd::prelude::*;
use crate::types::{Point, Rect};
use crate::features::MatchDrawer;

verus! {

/// Largest coordinate accepted by the line rasteriser.
pub const LINE_LIMIT: u64 = 0x7fff_ffff_ffff_ffff;

/// Largest radius of a circle outline: the largest radius for which the
/// decision variable `3 - 2 * r` of the midpoint algorithm fits in a signed
/// 64-bit integer.
pub const RADIUS_LIMIT: u64 = 0x4000_0000_0000_0000;

/// Types of drawing markers.
#[derive(Clone, Copy, Debug, PartialEq, Eq)]
pub enum MarkerType {
    Cross,
    TiltedCross,
    Diamond,
    Square,
    Circle,
    Filled,
}

/// A `channels` x `height` x `width` pixel buffer stored channel by channel,
/// each channel row by row.
pub struct Canvas<T> {
    pub channels: usize,
    pub height: usize,
    pub width: usize,
    pub data: Vec<T>,
}

/// Position of channel `ch` of pixel `(x, y)`.
pub open spec fn pix(h: int, w: int, ch: int, x: int, y: int) -> int {
    ch * h * w + y * w + x
}

/// `new` is `old` with every pixel selected by `sel` set to `color` in each
/// channel, and every other value unchanged.
pub open spec fn painted<T>(old: Seq<T>, new: Seq<T>, c: int, h: int, w: int, color: Seq<T>, sel: spec_fn(int, int) -> bool) -> bool {
    &&& new.len() == old.len()
    &&& forall|ch: int, x: int, y: int|
        0 <= ch < c && 0 <= x < w && 0 <= y < h ==> #[trigger] new[pix(h, w, ch, x, y)] == if sel(x, y) {
            color[ch]
        } else {
            old[pix(h, w, ch, x, y)]
        }
}

proof fn lemma_pix_range(c: int, h: int, w: int, ch: int, x: int, y: int)
    requires
        0 <= ch < c,
        0 <= x < w,
        0 <= y < h,
    ensures
        0 <= pix(h, w, ch, x, y) < c * h * w,
{
    assert(pix(h, w, ch, x, y) == (ch * h + y) * w + x) by (nonlinear_arith);
    assert(0 <= (ch * h + y) * w + x < c * h * w) by (nonlinear_arith)
        requires
            0 <= ch < c,
            0 <= x < w,
            0 <= y < h,
    ;
}

proof fn lemma_pix_terms(c: int, h: int, w: int, ch: int, x: int, y: int)
    requires
        0 <= ch < c,
        0 <= x < w,
        0 <= y < h,
    ensures
        0 <= ch * h <= c * h * w,
        0 <= ch * h * w <= c * h * w,
        0 <= y * w < c * h * w,
        ch * h * w + y * w + x < c * h * w,
{
    lemma_pix_range(c, h, w, ch, x, y);
    assert(0 <= ch * h <= c * h * w) by (nonlinear_arith)
        requires
            0 <= ch < c,
            1 <= w,
            0 <= h,
    ;
    assert(0 <= ch * h * w <= c * h * w) by (nonlinear_arith)
        requires
            0 <= ch < c,
            1 <= w,
            0 <= h,
    ;
    assert(0 <= y * w < c * h * w) by (nonlinear_arith)
        requires
            1 <= c,
            0 <= y < h,
            1 <= w,
    ;
}

proof fn lemma_row_unique(r: int, x: int, r2: int, x2: int, w: int)
    requires
        0 <= x < w,
        0 <= x2 < w,
        0 <= r,
        0 <= r2,
        r * w + x == r2 * w + x2,
    ensures
        r == r2,
        x == x2,
{
    if r < r2 {
        assert(r * w + x < r2 * w + x2) by (nonlinear_arith)
            requires
                0 <= x < w,
                0 <= x2,
                r < r2,
        ;
    } else if r2 < r {
        assert(r2 * w + x2 < r * w + x) by (nonlinear_arith)
            requires
                0 <= x2 < w,
                0 <= x,
                r2 < r,
        ;
    }
}

proof fn lemma_pix_unique(h: int, w: int, ch: int, x: int, y: int, ch2: int, x2: int, y2: int)
    requires
        0 <= ch,
        0 <= ch2,
        0 <= x < w,
        0 <= x2 < w,
        0 <= y < h,
        0 <= y2 < h,
        pix(h, w, ch, x, y) == pix(h, w, ch2, x2, y2),
    ensures
        ch == ch2,
        x == x2,
        y == y2,
{
    assert(pix(h, w, ch, x, y) == (ch * h + y) * w + x) by (nonlinear_arith);
    assert(pix(h, w, ch2, x2, y2) == (ch2 * h + y2) * w + x2) by (nonlinear_arith);
    assert(0 <= ch * h + y && 0 <= ch2 * h + y2) by (nonlinear_arith)
        requires
            0 <= ch,
            0 <= ch2,
            0 <= y,
            0 <= y2,
            0 <= h,
    ;
    lemma_row_unique(ch * h + y, x, ch2 * h + y2, x2, w);
    lemma_row_unique(ch, y, ch2, y2, h);
}

/// Painting twice with the same color paints the union.
proof fn lemma_painted_compose<T>(
    a: Seq<T>,
    b: Seq<T>,
    d: Seq<T>,
    c: int,
    h: int,
    w: int,
    color: Seq<T>,
    s1: spec_fn(int, int) -> bool,
    s2: spec_fn(int, int) -> bool,
)
    requires
        painted(a, b, c, h, w, color, s1),
        painted(b, d, c, h, w, color, s2),
    ensures
        painted(a, d, c, h, w, color, |x: int, y: int| s1(x, y) || s2(x, y)),
{
    assert forall|ch: int, x: int, y: int| 0 <= ch < c && 0 <= x < w && 0 <= y < h implies #[trigger] d[pix(h, w, ch, x, y)]
        == if s1(x, y) || s2(x, y) { color[ch] } else { a[pix(h, w, ch, x, y)] } by {
        assert(b[pix(h, w, ch, x, y)] == if s1(x, y) { color[ch] } else { a[pix(h, w, ch, x, y)] });
    }
}

/// Painting an empty selection changes nothing.
proof fn lemma_painted_nothing<T>(a: Seq<T>, c: int, h: int, w: int, color: Seq<T>)
    ensures
        painted(a, a, c, h, w, color, |x: int, y: int| false),
{
}

proof fn lemma_painted_same<T>(
    a: Seq<T>,
    b: Seq<T>,
    c: int,
    h: int,
    w: int,
    color: Seq<T>,
    s1: spec_fn(int, int) -> bool,
    s2: spec_fn(int, int) -> bool,
)
    requires
        painted(a, b, c, h, w, color, s1),
        forall|x: int, y: int| #![trigger s1(x, y)] #![trigger s2(x, y)] 0 <= x < w && 0 <= y < h ==> s1(x, y) == s2(x, y),
    ensures
        painted(a, b, c, h, w, color, s2),
{
    assert forall|ch: int, x: int, y: int| 0 <= ch < c && 0 <= x < w && 0 <= y < h implies #[trigger] b[pix(h, w, ch, x, y)]
        == if s2(x, y) { color[ch] } else { a[pix(h, w, ch, x, y)] } by {
        assert(s1(x, y) == s2(x, y));
    }
}

pub open spec fn iabs(v: int) -> int {
    if v < 0 { -v } else { v }
}

/// One step of Bresenham's line algorithm from state `(x, y, err)` with
/// step sizes `dx = |x1 - x0|`, `dy = -|y1 - y0|` and directions `sx`, `sy`.
pub open spec fn line_step(dx: int, dy: int, sx: int, sy: int, s: (int, int, int)) -> (int, int, int) {
    let e2 = 2 * s.2;
    let x = if e2 >= dy { s.0 + sx } else { s.0 };
    let err = if e2 >= dy { s.2 + dy } else { s.2 };
    if e2 <= dx {
        (x, s.1 + sy, err + dx)
    } else {
        (x, s.1, err)
    }
}

/// State of Bresenham's algorithm after `k` steps from `(x0, y0)` towards `(x1, y1)`.
pub open spec fn line_state(x0: int, y0: int, x1: int, y1: int, k: nat) -> (int, int, int)
    decreases k,
{
    let dx = iabs(x1 - x0);
    let dy = -iabs(y1 - y0);
    if k == 0 {
        (x0, y0, dx + dy)
    } else {
        line_step(dx, dy, if x0 < x1 { 1 } else { -1 }, if y0 < y1 { 1 } else { -1 }, line_state(x0, y0, x1, y1, (k - 1) as nat))
    }
}

/// `(px, py)` is visited by Bresenham's algorithm from `(x0, y0)` before or
/// when it reaches `(x1, y1)`.
pub open spec fn on_line(x0: int, y0: int, x1: int, y1: int, px: int, py: int) -> bool {
    exists|k: nat|
        #[trigger] line_state(x0, y0, x1, y1, k).0 == px && line_state(x0, y0, x1, y1, k).1 == py && forall|j: nat|
            j < k ==> !(#[trigger] line_state(x0, y0, x1, y1, j).0 == x1 && line_state(x0, y0, x1, y1, j).1 == y1)
}

/// Pixels visited in the first `k` steps.
pub open spec fn line_prefix(x0: int, y0: int, x1: int, y1: int, k: nat, px: int, py: int) -> bool {
    exists|j: nat| j < k && #[trigger] line_state(x0, y0, x1, y1, j).0 == px && line_state(x0, y0, x1, y1, j).1 == py
}

/// Pixels of the outline of the rectangle with corner `(rx, ry)`, width `rw`
/// and height `rh`: the four edges, each drawn from one corner to the next.
pub open spec fn rect_outline(rx: int, ry: int, rw: int, rh: int, px: int, py: int) -> bool {
    ||| on_line(rx, ry, rx + rw, ry, px, py)
    ||| on_line(rx + rw, ry, rx + rw, ry + rh, px, py)
    ||| on_line(rx + rw, ry + rh, rx, ry + rh, px, py)
    ||| on_line(rx, ry + rh, rx, ry, px, py)
}

/// Pixels of the axis-aligned box `x0 <= px < x1`, `y0 <= py < y1`.
pub open spec fn in_box(x0: int, y0: int, x1: int, y1: int, px: int, py: int) -> bool {
    x0 <= px < x1 && y0 <= py < y1
}

/// Largest radius of a filled circle: the largest radius whose square fits
/// in a signed 64-bit integer.
pub const CIRCLE_LIMIT: usize = 3037000499;

/// One step of the midpoint circle algorithm on the state `(x, y, d)`.
pub open spec fn circle_step(s: (int, int, int)) -> (int, int, int) {
    let x = s.0 + 1;
    if s.2 > 0 {
        (x, s.1 - 1, s.2 + 4 * (x - (s.1 - 1)) + 10)
    } else {
        (x, s.1, s.2 + 4 * x + 6)
    }
}

/// State of the midpoint circle algorithm of radius `r` after `k` steps.
pub open spec fn circle_state(r: int, k: nat) -> (int, int, int)
    decreases k,
{
    if k == 0 {
        (0, r, 3 - 2 * r)
    } else {
        circle_step(circle_state(r, (k - 1) as nat))
    }
}

/// `(px, py)` is one of the eight reflections of the offset `(x, y)` about `(xc, yc)`.
pub open spec fn sym8(xc: int, yc: int, x: int, y: int, px: int, py: int) -> bool {
    ||| (px == xc + x || px == xc - x) && (py == yc + y || py == yc - y)
    ||| (px == xc + y || px == xc - y) && (py == yc + x || py == yc - x)
}

/// Pixels drawn by the midpoint circle algorithm around `(xc, yc)`: the
/// reflections of every state up to and including the first one whose `y`
/// has fallen below its `x`.
pub open spec fn on_circle(xc: int, yc: int, r: int, px: int, py: int) -> bool {
    exists|k: nat|
        sym8(xc, yc, #[trigger] circle_state(r, k).0, circle_state(r, k).1, px, py) && forall|j: nat|
            j < k ==> #[trigger] circle_state(r, j).1 >= circle_state(r, j).0
}

/// Reflections of the first `n` states.
pub open spec fn circle_prefix(xc: int, yc: int, r: int, n: nat, px: int, py: int) -> bool {
    exists|j: nat| j < n && sym8(xc, yc, #[trigger] circle_state(r, j).0, circle_state(r, j).1, px, py)
}

/// Pixels whose squared distance from `(xc, yc)` is at most `r * r`.
pub open spec fn in_disc(xc: int, yc: int, r: int, px: int, py: int) -> bool {
    (px - xc) * (px - xc) + (py - yc) * (py - yc) <= r * r
}

proof fn lemma_disc_bounds(xc: int, yc: int, r: int, px: int, py: int)
    requires
        r >= 0,
        in_disc(xc, yc, r, px, py),
    ensures
        xc - r <= px <= xc + r,
        yc - r <= py <= yc + r,
{
    assert(xc - r <= px <= xc + r) by (nonlinear_arith)
        requires
            (px - xc) * (px - xc) + (py - yc) * (py - yc) <= r * r,
            r >= 0,
    ;
    assert(yc - r <= py <= yc + r) by (nonlinear_arith)
        requires
            (px - xc) * (px - xc) + (py - yc) * (py - yc) <= r * r,
            r >= 0,
    ;
}

/// Pixels of the connected segments `pts[0]`-`pts[1]`, `pts[1]`-`pts[2]`, ...
pub open spec fn on_polyline(pts: Seq<Point<usize>>, px: int, py: int) -> bool {
    exists|i: int|
        0 <= i < pts.len() - 1 && #[trigger] on_line(
            pts[i].x as int,
            pts[i].y as int,
            pts[i + 1].x as int,
            pts[i + 1].y as int,
            px,
            py,
        )
}

/// `a - b`, or zero where that would be negative.
pub open spec fn sat_sub(a: int, b: int) -> int {
    if a >= b { a - b } else { 0 }
}

/// The corners of the diamond marker of half-size `half` around `(cx, cy)`,
/// closed by repeating the first.
pub open spec fn diamond_points(cx: int, cy: int, half: int) -> Seq<Point<usize>> {
    seq![
        Point { x: cx as usize, y: sat_sub(cy, half) as usize },
        Point { x: (cx + half) as usize, y: cy as usize },
        Point { x: cx as usize, y: (cy + half) as usize },
        Point { x: sat_sub(cx, half) as usize, y: cy as usize },
        Point { x: cx as usize, y: sat_sub(cy, half) as usize },
    ]
}

/// Pixels of the marker `t` of size `size` centred on `(cx, cy)`.
pub open spec fn marker_pixels(cx: int, cy: int, t: MarkerType, size: int, px: int, py: int) -> bool {
    let half = size / 2;
    match t {
        MarkerType::Cross => on_line(sat_sub(cx, half), cy, cx + half, cy, px, py) || on_line(
            cx,
            sat_sub(cy, half),
            cx,
            cy + half,
            px,
            py,
        ),
        MarkerType::TiltedCross => on_line(sat_sub(cx, half), sat_sub(cy, half), cx + half, cy + half, px, py)
            || on_line(cx + half, sat_sub(cy, half), sat_sub(cx, half), cy + half, px, py),
        MarkerType::Diamond => on_polyline(diamond_points(cx, cy, half), px, py),
        MarkerType::Square => rect_outline(sat_sub(cx, half), sat_sub(cy, half), size, size, px, py),
        MarkerType::Circle => on_circle(cx, cy, half, px, py),
        MarkerType::Filled => in_disc(cx, cy, half, px, py),
    }
}

proof fn lemma_bresenham_step(a: int, b: int, i: int, j: int, err: int)
    requires
        a >= 0,
        b >= 0,
        0 <= i <= a,
        0 <= j <= b,
        !(i == a && j == b),
        err == a * (1 + j) - b * (1 + i),
    ensures
        2 * err >= -b || 2 * err <= a,
        2 * err >= -b ==> i < a,
        2 * err <= a ==> j < b,
        a * (1 + j) - b * (1 + (i + 1)) == err - b,
        a * (1 + (j + 1)) - b * (1 + i) == err + a,
        a * (1 + (j + 1)) - b * (1 + (i + 1)) == err + a - b,
{
    assert(a * (1 + j) - b * (1 + (i + 1)) == err - b) by (nonlinear_arith)
        requires
            err == a * (1 + j) - b * (1 + i),
    ;
    assert(a * (1 + (j + 1)) - b * (1 + i) == err + a) by (nonlinear_arith)
        requires
            err == a * (1 + j) - b * (1 + i),
    ;
    assert(a * (1 + (j + 1)) - b * (1 + (i + 1)) == err + a - b) by (nonlinear_arith)
        requires
            err == a * (1 + j) - b * (1 + i),
    ;
    if 2 * err >= -b && i == a {
        assert(j < b);
        assert(false) by (nonlinear_arith)
            requires
                2 * (a * (1 + j) - b * (1 + a)) >= -b,
                0 <= j < b,
                a >= 0,
        ;
    }
    if 2 * err <= a && j == b {
        assert(i < a);
        assert(false) by (nonlinear_arith)
            requires
                2 * (a * (1 + b) - b * (1 + i)) <= a,
                0 <= i < a,
                b >= 0,
        ;
    }
}

impl<T: Copy> Canvas<T> {
    /// The buffer holds one value per channel and pixel.
    pub open spec fn wf(&self) -> bool {
        self.data.len() == self.channels * self.height * self.width
    }

    /// Sets every channel of pixel `(x, y)` to `color`, if the pixel lies on the canvas.
    pub fn put_pixel(&mut self, x: i64, y: i64, color: &Vec<T>)
        requires
            old(self).wf(),
            color.len() >= old(self).channels,
        ensures
            final(self).wf(),
            final(self).channels == old(self).channels,
            final(self).height == old(self).height,
            final(self).width == old(self).width,
            painted(
                old(self).data@,
                final(self).data@,
                old(self).channels as int,
                old(self).height as int,
                old(self).width as int,
                color@,
                |px: int, py: int| px == x && py == y,
            ),
    {
        let h = self.height;
        let w = self.width;
        if x < 0 || y < 0 || x as u64 >= w as u64 || y as u64 >= h as u64 {
            return;
        }
        self.set_pixel(x as usize, y as usize, color);
    }

    /// Sets every channel of the on-canvas pixel `(x, y)` to `color`.
    fn set_pixel(&mut self, x: usize, y: usize, color: &Vec<T>)
        requires
            old(self).wf(),
            color.len() >= old(self).channels,
            x < old(self).width,
            y < old(self).height,
        ensures
            final(self).wf(),
            final(self).channels == old(self).channels,
            final(self).height == old(self).height,
            final(self).width == old(self).width,
            painted(
                old(self).data@,
                final(self).data@,
                old(self).channels as int,
                old(self).height as int,
                old(self).width as int,
                color@,
                |px: int, py: int| px == x && py == y,
            ),
    {
        let c = self.channels;
        let h = self.height;
        let w = self.width;
        let ghost orig = self.data@;
        let mut ch: usize = 0;
        while ch < c
            invariant
                self.wf(),
                c == self.channels,
                h == self.height,
                w == self.width,
                x < w,
                y < h,
                ch <= c,
                color.len() >= c,
                self.data@.len() == orig.len(),
                forall|k: int, px: int, py: int| 0 <= k < c && 0 <= px < w && 0 <= py < h ==>
                    #[trigger] self.data@[pix(h as int, w as int, k, px, py)] == if px == x && py == y && k < ch {
                        color@[k]
                    } else {
                        orig[pix(h as int, w as int, k, px, py)]
                    },
            decreases c - ch,
        {
            proof {
                lemma_pix_terms(c as int, h as int, w as int, ch as int, x as int, y as int);
                assert(ch * h * w + y * w + x == pix(h as int, w as int, ch as int, x as int, y as int));
            }
            let idx = ch * h * w + y * w + x;
            self.data.set(idx, color[ch]);
            proof {
                assert forall|k: int, px: int, py: int| 0 <= k < c && 0 <= px < w && 0 <= py < h implies
                    #[trigger] self.data@[pix(h as int, w as int, k, px, py)] == if px == x && py == y && k < ch + 1 {
                        color@[k]
                    } else {
                        orig[pix(h as int, w as int, k, px, py)]
                    } by {
                    lemma_pix_range(c as int, h as int, w as int, k, px, py);
                    if pix(h as int, w as int, k, px, py) == idx {
                        lemma_pix_unique(h as int, w as int, k, px, py, ch as int, x as int, y as int);
                    }
                }
            }
            ch = ch + 1;
        }
    }
}


impl<T: Copy> Canvas<T> {
    /// Draws the line from `p1` to `p2` with Bresenham's algorithm; pixels
    /// off the canvas are skipped.
    pub fn draw_line(&mut self, p1: Point<usize>, p2: Point<usize>, color: &Vec<T>)
        requires
            old(self).wf(),
            color.len() >= old(self).channels,
            p1.x as u64 <= LINE_LIMIT,
            p1.y as u64 <= LINE_LIMIT,
            p2.x as u64 <= LINE_LIMIT,
            p2.y as u64 <= LINE_LIMIT,
        ensures
            final(self).wf(),
            final(self).channels == old(self).channels,
            final(self).height == old(self).height,
            final(self).width == old(self).width,
            painted(
                old(self).data@,
                final(self).data@,
                old(self).channels as int,
                old(self).height as int,
                old(self).width as int,
                color@,
                |px: int, py: int| on_line(p1.x as int, p1.y as int, p2.x as int, p2.y as int, px, py),
            ),
    {
        let ghost c = self.channels as int;
        let ghost h = self.height as int;
        let ghost w = self.width as int;
        let ghost orig = self.data@;
        let ghost gx0 = p1.x as int;
        let ghost gy0 = p1.y as int;
        let ghost gx1 = p2.x as int;
        let ghost gy1 = p2.y as int;
        let mut x0 = p1.x as i64;
        let mut y0 = p1.y as i64;
        let x1 = p2.x as i64;
        let y1 = p2.y as i64;
        let dx: i128 = if x1 >= x0 { x1 as i128 - x0 as i128 } else { x0 as i128 - x1 as i128 };
        let dy: i128 = if y1 >= y0 { y0 as i128 - y1 as i128 } else { y1 as i128 - y0 as i128 };
        let sx: i64 = if x0 < x1 { 1 } else { -1 };
        let sy: i64 = if y0 < y1 { 1 } else { -1 };
        let mut err: i128 = dx + dy;
        let ghost a = dx as int;
        let ghost b = -dy;
        let ghost mut k: nat = 0;
        let ghost mut i: int = 0;
        let ghost mut j: int = 0;
        proof {
            assert(err == a * (1 + j) - b * (1 + i)) by (nonlinear_arith)
                requires
                    err == a - b,
                    i == 0,
                    j == 0,
            ;
            lemma_painted_same(orig, self.data@, c, h, w, color@, |px: int, py: int| false,
                |px: int, py: int| line_prefix(gx0, gy0, gx1, gy1, 0, px, py));
        }
        loop
            invariant_except_break
                (x0 as int, y0 as int, err as int) == line_state(gx0, gy0, gx1, gy1, k),
                painted(orig, self.data@, c, h, w, color@, |px: int, py: int| line_prefix(gx0, gy0, gx1, gy1, k, px, py)),
            invariant
                self.wf(),
                c == self.channels,
                h == self.height,
                w == self.width,
                color.len() >= c,
                gx0 == p1.x,
                gy0 == p1.y,
                gx1 == x1,
                gy1 == y1,
                gx1 == p2.x,
                gy1 == p2.y,
                p1.x as u64 <= LINE_LIMIT,
                p1.y as u64 <= LINE_LIMIT,
                p2.x as u64 <= LINE_LIMIT,
                p2.y as u64 <= LINE_LIMIT,
                a == dx,
                b == -dy,
                a == iabs(gx1 - gx0),
                b == iabs(gy1 - gy0),
                sx == (if gx0 < gx1 { 1int } else { -1int }),
                sy == (if gy0 < gy1 { 1int } else { -1int }),
                0 <= i <= a,
                0 <= j <= b,
                x0 == gx0 + sx * i,
                y0 == gy0 + sy * j,
                err == a * (1 + j) - b * (1 + i),
                -3 * b <= 2 * err <= 3 * a,
                forall|t: nat| t < k ==> !(#[trigger] line_state(gx0, gy0, gx1, gy1, t).0 == gx1 && line_state(gx0, gy0, gx1, gy1, t).1 == gy1),
            ensures
                painted(orig, self.data@, c, h, w, color@, |px: int, py: int| on_line(gx0, gy0, gx1, gy1, px, py)),
                self.wf(),
                c == self.channels,
                h == self.height,
                w == self.width,
            decreases (a - i) + (b - j),
        {
            let ghost before = self.data@;
            self.put_pixel(x0, y0, color);
            proof {
                let st = line_state(gx0, gy0, gx1, gy1, k);
                lemma_painted_compose(orig, before, self.data@, c, h, w, color@,
                    |px: int, py: int| line_prefix(gx0, gy0, gx1, gy1, k, px, py),
                    |px: int, py: int| px == x0 && py == y0);
                let s_old = |px: int, py: int| line_prefix(gx0, gy0, gx1, gy1, k, px, py) || (px == x0 && py == y0);
                let s_new = |px: int, py: int| line_prefix(gx0, gy0, gx1, gy1, k + 1, px, py);
                assert forall|px: int, py: int| 0 <= px < w && 0 <= py < h implies #[trigger] s_old(px, py) == s_new(px, py) by {
                    if px == x0 && py == y0 {
                        assert(line_state(gx0, gy0, gx1, gy1, k).0 == px);
                    }
                    if line_prefix(gx0, gy0, gx1, gy1, k + 1, px, py) {
                        let t = choose|t: nat| t < k + 1 && #[trigger] line_state(gx0, gy0, gx1, gy1, t).0 == px && line_state(gx0, gy0, gx1, gy1, t).1 == py;
                        if t < k {
                            assert(line_prefix(gx0, gy0, gx1, gy1, k, px, py));
                        }
                    }
                }
                lemma_painted_same(orig, self.data@, c, h, w, color@, s_old, s_new);
            }
            if x0 == x1 && y0 == y1 {
                proof {
                    assert forall|px: int, py: int| 0 <= px < w && 0 <= py < h implies
                        line_prefix(gx0, gy0, gx1, gy1, k + 1, px, py) == on_line(gx0, gy0, gx1, gy1, px, py) by {
                        if line_prefix(gx0, gy0, gx1, gy1, k + 1, px, py) {
                            let t = choose|t: nat| t < k + 1 && #[trigger] line_state(gx0, gy0, gx1, gy1, t).0 == px && line_state(gx0, gy0, gx1, gy1, t).1 == py;
                            assert forall|q: nat| q < t implies !(#[trigger] line_state(gx0, gy0, gx1, gy1, q).0 == gx1 && line_state(gx0, gy0, gx1, gy1, q).1 == gy1) by {}
                        }
                        if on_line(gx0, gy0, gx1, gy1, px, py) {
                            let t = choose|t: nat| #[trigger] line_state(gx0, gy0, gx1, gy1, t).0 == px && line_state(gx0, gy0, gx1, gy1, t).1 == py && forall|q: nat|
                                q < t ==> !(#[trigger] line_state(gx0, gy0, gx1, gy1, q).0 == gx1 && line_state(gx0, gy0, gx1, gy1, q).1 == gy1);
                            if t > k {
                                assert(line_state(gx0, gy0, gx1, gy1, k).0 == gx1);
                            }
                            assert(t < k + 1);
                        }
                    }
                    lemma_painted_same(orig, self.data@, c, h, w, color@,
                        |px: int, py: int| line_prefix(gx0, gy0, gx1, gy1, k + 1, px, py),
                        |px: int, py: int| on_line(gx0, gy0, gx1, gy1, px, py));
                }
                break;
            }
            proof {
                if i == a && j == b {
                    assert(x0 == x1 && y0 == y1) by (nonlinear_arith)
                        requires
                            x0 == gx0 + sx * i,
                            y0 == gy0 + sy * j,
                            i == a,
                            j == b,
                            a == iabs(gx1 - gx0),
                            b == iabs(gy1 - gy0),
                            sx == (if gx0 < gx1 { 1int } else { -1int }),
                            sy == (if gy0 < gy1 { 1int } else { -1int }),
                            gx1 == x1,
                            gy1 == y1,
                    ;
                }
                lemma_bresenham_step(a, b, i, j, err as int);
            }
            let e2 = 2 * err;
            if e2 >= dy {
                proof {
                    if sx == 1 {
                        assert(x0 == gx0 + i);
                    } else {
                        assert(x0 == gx0 - i) by (nonlinear_arith)
                            requires
                                x0 == gx0 + sx * i,
                                sx == -1,
                        ;
                    }
                }
                err = err + dy;
                x0 = x0 + sx;
                proof {
                    i = i + 1;
                    assert(x0 == gx0 + sx * i) by (nonlinear_arith)
                        requires
                            x0 == gx0 + sx * (i - 1) + sx,
                    ;
                }
            }
            if e2 <= dx {
                proof {
                    if sy == 1 {
                        assert(y0 == gy0 + j);
                    } else {
                        assert(y0 == gy0 - j) by (nonlinear_arith)
                            requires
                                y0 == gy0 + sy * j,
                                sy == -1,
                        ;
                    }
                }
                err = err + dx;
                y0 = y0 + sy;
                proof {
                    j = j + 1;
                    assert(y0 == gy0 + sy * j) by (nonlinear_arith)
                        requires
                            y0 == gy0 + sy * (j - 1) + sy,
                    ;
                }
            }
            proof {
                k = k + 1;
            }
        }
    }
}

impl<T: Copy> Canvas<T> {
    /// Sets every pixel of the box `x0 <= px < x1`, `y0 <= py < y1` that
    /// lies on the canvas.
    fn fill_box(&mut self, x0: usize, y0: usize, x1: usize, y1: usize, color: &Vec<T>)
        requires
            old(self).wf(),
            color.len() >= old(self).channels,
        ensures
            final(self).wf(),
            final(self).channels == old(self).channels,
            final(self).height == old(self).height,
            final(self).width == old(self).width,
            painted(
                old(self).data@,
                final(self).data@,
                old(self).channels as int,
                old(self).height as int,
                old(self).width as int,
                color@,
                |px: int, py: int| in_box(x0 as int, y0 as int, x1 as int, y1 as int, px, py),
            ),
    {
        let ghost c = self.channels as int;
        let h = self.height;
        let w = self.width;
        let ghost orig = self.data@;
        let xe = if x1 < w { x1 } else { w };
        let ye = if y1 < h { y1 } else { h };
        let mut y = y0;
        proof {
            lemma_painted_same(orig, self.data@, c, h as int, w as int, color@, |px: int, py: int| false,
                |px: int, py: int| in_box(x0 as int, y0 as int, x1 as int, y as int, px, py));
        }
        while y < ye
            invariant
                self.wf(),
                c == self.channels,
                h == self.height,
                w == self.width,
                color.len() >= c,
                xe <= w,
                ye <= h,
                xe == (if x1 < w { x1 } else { w }),
                y0 <= y,
                y <= ye || y == y0,
                painted(orig, self.data@, c, h as int, w as int, color@,
                    |px: int, py: int| in_box(x0 as int, y0 as int, x1 as int, y as int, px, py)),
            decreases ye - y,
        {
            let mut x = x0;
            let ghost rows = |px: int, py: int| in_box(x0 as int, y0 as int, x1 as int, y as int, px, py);
            proof {
                lemma_painted_same(orig, self.data@, c, h as int, w as int, color@, rows,
                    |px: int, py: int| rows(px, py) || (py == y && x0 <= px < x));
            }
            while x < xe
                invariant
                    self.wf(),
                    c == self.channels,
                    h == self.height,
                    w == self.width,
                    color.len() >= c,
                    xe <= w,
                    y < h,
                    x0 <= x,
                    x <= xe || x == x0,
                    rows == (|px: int, py: int| in_box(x0 as int, y0 as int, x1 as int, y as int, px, py)),
                    painted(orig, self.data@, c, h as int, w as int, color@,
                        |px: int, py: int| rows(px, py) || (py == y && x0 <= px < x)),
                decreases xe - x,
            {
                let ghost before = self.data@;
                self.set_pixel(x, y, color);
                proof {
                    lemma_painted_compose(orig, before, self.data@, c, h as int, w as int, color@,
                        |px: int, py: int| rows(px, py) || (py == y && x0 <= px < x),
                        |px: int, py: int| px == x && py == y);
                    lemma_painted_same(orig, self.data@, c, h as int, w as int, color@,
                        |px: int, py: int| (rows(px, py) || (py == y && x0 <= px < x)) || (px == x && py == y),
                        |px: int, py: int| rows(px, py) || (py == y && x0 <= px < x + 1));
                }
                x = x + 1;
            }
            proof {
                assert forall|px: int, py: int| 0 <= px < w && 0 <= py < h implies
                    (#[trigger] rows(px, py) || (py == y && x0 <= px < x)) == in_box(x0 as int, y0 as int, x1 as int, y + 1, px, py) by {}
                lemma_painted_same(orig, self.data@, c, h as int, w as int, color@,
                    |px: int, py: int| rows(px, py) || (py == y && x0 <= px < x),
                    |px: int, py: int| in_box(x0 as int, y0 as int, x1 as int, y + 1, px, py));
            }
            y = y + 1;
        }
        proof {
            lemma_painted_same(orig, self.data@, c, h as int, w as int, color@,
                |px: int, py: int| in_box(x0 as int, y0 as int, x1 as int, y as int, px, py),
                |px: int, py: int| in_box(x0 as int, y0 as int, x1 as int, y1 as int, px, py));
        }
    }

    /// Draws the outline of `rect` when `thickness >= 0`, and fills it
    /// (clipped to the canvas) when `thickness < 0`.
    pub fn draw_rectangle(&mut self, rect: Rect<usize>, color: &Vec<T>, thickness: i32)
        requires
            old(self).wf(),
            color.len() >= old(self).channels,
            rect.x + rect.width <= usize::MAX,
            rect.y + rect.height <= usize::MAX,
            rect.x + rect.width <= LINE_LIMIT,
            rect.y + rect.height <= LINE_LIMIT,
        ensures
            final(self).wf(),
            final(self).channels == old(self).channels,
            final(self).height == old(self).height,
            final(self).width == old(self).width,
            painted(
                old(self).data@,
                final(self).data@,
                old(self).channels as int,
                old(self).height as int,
                old(self).width as int,
                color@,
                |px: int, py: int| if thickness >= 0 {
                    rect_outline(rect.x as int, rect.y as int, rect.width as int, rect.height as int, px, py)
                } else {
                    in_box(rect.x as int, rect.y as int, rect.x + rect.width, rect.y + rect.height, px, py)
                },
            ),
    {
        let ghost c = self.channels as int;
        let ghost h = self.height as int;
        let ghost w = self.width as int;
        let ghost orig = self.data@;
        let x2 = rect.x + rect.width;
        let y2 = rect.y + rect.height;
        if thickness >= 0 {
            let p1 = Point::new(rect.x, rect.y);
            let p2 = Point::new(x2, rect.y);
            let p3 = Point::new(x2, y2);
            let p4 = Point::new(rect.x, y2);
            let ghost s1 = |px: int, py: int| on_line(p1.x as int, p1.y as int, p2.x as int, p2.y as int, px, py);
            let ghost s2 = |px: int, py: int| on_line(p2.x as int, p2.y as int, p3.x as int, p3.y as int, px, py);
            let ghost s3 = |px: int, py: int| on_line(p3.x as int, p3.y as int, p4.x as int, p4.y as int, px, py);
            let ghost s4 = |px: int, py: int| on_line(p4.x as int, p4.y as int, p1.x as int, p1.y as int, px, py);
            self.draw_line(p1, p2, color);
            let ghost d1 = self.data@;
            self.draw_line(p2, p3, color);
            let ghost d2 = self.data@;
            proof {
                lemma_painted_compose(orig, d1, d2, c, h, w, color@, s1, s2);
            }
            self.draw_line(p3, p4, color);
            let ghost d3 = self.data@;
            proof {
                lemma_painted_compose(orig, d2, d3, c, h, w, color@, |px: int, py: int| s1(px, py) || s2(px, py), s3);
            }
            self.draw_line(p4, p1, color);
            proof {
                lemma_painted_compose(orig, d3, self.data@, c, h, w, color@,
                    |px: int, py: int| (s1(px, py) || s2(px, py)) || s3(px, py), s4);
                lemma_painted_same(orig, self.data@, c, h, w, color@,
                    |px: int, py: int| ((s1(px, py) || s2(px, py)) || s3(px, py)) || s4(px, py),
                    |px: int, py: int| if thickness >= 0 {
                        rect_outline(rect.x as int, rect.y as int, rect.width as int, rect.height as int, px, py)
                    } else {
                        in_box(rect.x as int, rect.y as int, rect.x + rect.width, rect.y + rect.height, px, py)
                    });
            }
        } else {
            self.fill_box(rect.x, rect.y, x2, y2, color);
            proof {
                lemma_painted_same(orig, self.data@, c, h, w, color@,
                    |px: int, py: int| in_box(rect.x as int, rect.y as int, x2 as int, y2 as int, px, py),
                    |px: int, py: int| if thickness >= 0 {
                        rect_outline(rect.x as int, rect.y as int, rect.width as int, rect.height as int, px, py)
                    } else {
                        in_box(rect.x as int, rect.y as int, rect.x + rect.width, rect.y + rect.height, px, py)
                    });
            }
        }
    }
}

impl<T: Copy> Canvas<T> {
    /// Sets each of the given pixels that lies on the canvas.
    fn put_points(&mut self, pts: &Vec<(i64, i64)>, color: &Vec<T>)
        requires
            old(self).wf(),
            color.len() >= old(self).channels,
        ensures
            final(self).wf(),
            final(self).channels == old(self).channels,
            final(self).height == old(self).height,
            final(self).width == old(self).width,
            painted(
                old(self).data@,
                final(self).data@,
                old(self).channels as int,
                old(self).height as int,
                old(self).width as int,
                color@,
                |px: int, py: int| exists|i: int| 0 <= i < pts.len() && #[trigger] pts@[i].0 == px && pts@[i].1 == py,
            ),
    {
        let ghost c = self.channels as int;
        let ghost h = self.height as int;
        let ghost w = self.width as int;
        let ghost orig = self.data@;
        let mut n: usize = 0;
        proof {
            lemma_painted_same(orig, self.data@, c, h, w, color@, |px: int, py: int| false,
                |px: int, py: int| exists|i: int| 0 <= i < n && #[trigger] pts@[i].0 == px && pts@[i].1 == py);
        }
        while n < pts.len()
            invariant
                self.wf(),
                c == self.channels,
                h == self.height,
                w == self.width,
                color.len() >= c,
                n <= pts.len(),
                painted(orig, self.data@, c, h, w, color@,
                    |px: int, py: int| exists|i: int| 0 <= i < n && #[trigger] pts@[i].0 == px && pts@[i].1 == py),
            decreases pts.len() - n,
        {
            let ghost before = self.data@;
            let (px0, py0) = pts[n];
            self.put_pixel(px0, py0, color);
            proof {
                let s_old = |px: int, py: int| exists|i: int| 0 <= i < n && #[trigger] pts@[i].0 == px && pts@[i].1 == py;
                let s_new = |px: int, py: int| exists|i: int| 0 <= i < n + 1 && #[trigger] pts@[i].0 == px && pts@[i].1 == py;
                lemma_painted_compose(orig, before, self.data@, c, h, w, color@, s_old,
                    |px: int, py: int| px == px0 && py == py0);
                assert forall|px: int, py: int| 0 <= px < w && 0 <= py < h implies
                    (#[trigger] s_old(px, py) || (px == px0 && py == py0)) == s_new(px, py) by {
                    if px == px0 && py == py0 {
                        assert(pts@[n as int].0 == px);
                    }
                    if s_new(px, py) {
                        let i = choose|i: int| 0 <= i < n + 1 && #[trigger] pts@[i].0 == px && pts@[i].1 == py;
                        if i < n {
                            assert(s_old(px, py));
                        }
                    }
                }
                lemma_painted_same(orig, self.data@, c, h, w, color@,
                    |px: int, py: int| s_old(px, py) || (px == px0 && py == py0), s_new);
            }
            n = n + 1;
        }
    }

    /// Sets the eight reflections of the offset `(x, y)` about `(xc, yc)`.
    fn draw_sym(&mut self, xc: i64, yc: i64, x: i64, y: i64, color: &Vec<T>)
        requires
            old(self).wf(),
            color.len() >= old(self).channels,
            0 <= xc,
            0 <= yc,
            -2 <= x <= RADIUS_LIMIT + 1,
            -2 <= y <= RADIUS_LIMIT + 1,
            xc + x <= LINE_LIMIT,
            xc + y <= LINE_LIMIT,
            yc + x <= LINE_LIMIT,
            yc + y <= LINE_LIMIT,
            xc - x <= LINE_LIMIT,
            xc - y <= LINE_LIMIT,
            yc - x <= LINE_LIMIT,
            yc - y <= LINE_LIMIT,
        ensures
            final(self).wf(),
            final(self).channels == old(self).channels,
            final(self).height == old(self).height,
            final(self).width == old(self).width,
            painted(
                old(self).data@,
                final(self).data@,
                old(self).channels as int,
                old(self).height as int,
                old(self).width as int,
                color@,
                |px: int, py: int| sym8(xc as int, yc as int, x as int, y as int, px, py),
            ),
    {
        let ghost orig = self.data@;
        let xpx = xc + x;
        let xmx = xc - x;
        let xpy = xc + y;
        let xmy = xc - y;
        let ypy = yc + y;
        let ymy = yc - y;
        let ypx = yc + x;
        let ymx = yc - x;
        let pts = vec![
            (xpx, ypy),
            (xmx, ypy),
            (xpx, ymy),
            (xmx, ymy),
            (xpy, ypx),
            (xmy, ypx),
            (xpy, ymx),
            (xmy, ymx),
        ];
        self.put_points(&pts, color);
        proof {
            let sel = |px: int, py: int| exists|i: int| 0 <= i < pts.len() && #[trigger] pts@[i].0 == px && pts@[i].1 == py;
            assert forall|px: int, py: int| 0 <= px < self.width && 0 <= py < self.height implies
                #[trigger] sel(px, py) == sym8(xc as int, yc as int, x as int, y as int, px, py) by {
                if sym8(xc as int, yc as int, x as int, y as int, px, py) {
                    if px == xc + x && py == yc + y {
                        assert(pts@[0].0 == px && pts@[0].1 == py);
                    } else if px == xc - x && py == yc + y {
                        assert(pts@[1].0 == px && pts@[1].1 == py);
                    } else if px == xc + x && py == yc - y {
                        assert(pts@[2].0 == px && pts@[2].1 == py);
                    } else if px == xc - x && py == yc - y {
                        assert(pts@[3].0 == px && pts@[3].1 == py);
                    } else if px == xc + y && py == yc + x {
                        assert(pts@[4].0 == px && pts@[4].1 == py);
                    } else if px == xc - y && py == yc + x {
                        assert(pts@[5].0 == px && pts@[5].1 == py);
                    } else if px == xc + y && py == yc - x {
                        assert(pts@[6].0 == px && pts@[6].1 == py);
                    } else {
                        assert(pts@[7].0 == px && pts@[7].1 == py);
                    }
                }
            }
            lemma_painted_same(orig, self.data@, self.channels as int, self.height as int, self.width as int,
                color@, sel, |px: int, py: int| sym8(xc as int, yc as int, x as int, y as int, px, py));
        }
    }
}

proof fn lemma_circle_bound(x: int, y: int, d: int, r: int, x2: int, y2: int, d2: int)
    requires
        0 <= r <= RADIUS_LIMIT,
        0 <= x <= r,
        x <= y <= r,
        -(3 + 2 * r + x * (4 * r + 18)) <= d <= 3 + 2 * r + x * (4 * r + 18),
        (x2, y2, d2) == circle_step((x, y, d)),
    ensures
        -(3 + 2 * r + x2 * (4 * r + 18)) <= d2 <= 3 + 2 * r + x2 * (4 * r + 18),
        3 + 2 * r + x2 * (4 * r + 18) <= 0x7000_0000_0000_0000_0000_0000_0000_0000,
{
    assert(3 + 2 * r + (x + 1) * (4 * r + 18) == 3 + 2 * r + x * (4 * r + 18) + 4 * r + 18) by (nonlinear_arith);
    assert(x2 == x + 1);
    assert(x2 * (4 * r + 18) == x * (4 * r + 18) + 4 * r + 18) by (nonlinear_arith)
        requires
            x2 == x + 1,
    ;
    if d > 0 {
        assert(d2 == d + 4 * (x - y) + 18);
    } else {
        assert(d2 == d + 4 * x + 10);
    }
    assert((r + 1) * (4 * r + 18) <= (RADIUS_LIMIT + 1) * (4 * RADIUS_LIMIT + 18)) by (nonlinear_arith)
        requires
            0 <= r <= RADIUS_LIMIT,
    ;
    assert(x2 * (4 * r + 18) <= (r + 1) * (4 * r + 18)) by (nonlinear_arith)
        requires
            x2 <= r + 1,
            0 <= r,
    ;
}

impl<T: Copy> Canvas<T> {
    /// Sets every on-canvas pixel within distance `r` of `(xc, yc)`.
    fn fill_disc(&mut self, xc: usize, yc: usize, r: usize, color: &Vec<T>)
        requires
            old(self).wf(),
            color.len() >= old(self).channels,
            xc + r <= LINE_LIMIT,
            yc + r <= LINE_LIMIT,
            r <= CIRCLE_LIMIT,
        ensures
            final(self).wf(),
            final(self).channels == old(self).channels,
            final(self).height == old(self).height,
            final(self).width == old(self).width,
            painted(
                old(self).data@,
                final(self).data@,
                old(self).channels as int,
                old(self).height as int,
                old(self).width as int,
                color@,
                |px: int, py: int| in_disc(xc as int, yc as int, r as int, px, py),
            ),
    {
        let ghost c = self.channels as int;
        let h = self.height;
        let w = self.width;
        let ghost orig = self.data@;
        let ghost disc = |px: int, py: int| in_disc(xc as int, yc as int, r as int, px, py);
        let x_lo = if xc >= r { xc - r } else { 0 };
        let y_lo = if yc >= r { yc - r } else { 0 };
        let x_hi = if xc < w && r < w - xc { xc + r + 1 } else { w };
        let y_hi = if yc < h && r < h - yc { yc + r + 1 } else { h };
        proof {
            assert(r * r <= CIRCLE_LIMIT * CIRCLE_LIMIT) by (nonlinear_arith)
                requires
                    r <= CIRCLE_LIMIT,
            ;
        }
        let r2: i64 = (r as i64) * (r as i64);
        let mut y = y_lo;
        proof {
            assert forall|px: int, py: int| 0 <= px < w && 0 <= py < h implies
                !(#[trigger] disc(px, py) && py < y) by {
                if disc(px, py) {
                    lemma_disc_bounds(xc as int, yc as int, r as int, px, py);
                }
            }
            lemma_painted_same(orig, self.data@, c, h as int, w as int, color@, |px: int, py: int| false,
                |px: int, py: int| disc(px, py) && py < y);
        }
        while y < y_hi
            invariant
                self.wf(),
                c == self.channels,
                h == self.height,
                w == self.width,
                color.len() >= c,
                xc + r <= LINE_LIMIT,
                yc + r <= LINE_LIMIT,
                r <= CIRCLE_LIMIT,
                r2 == r * r,
                x_lo == (if xc >= r { xc - r } else { 0 }),
                x_hi == (if xc + r + 1 <= w { (xc + r + 1) as usize } else { w }),
                y_hi == (if yc + r + 1 <= h { (yc + r + 1) as usize } else { h }),
                y_lo <= y,
                y_lo == (if yc >= r { yc - r } else { 0 }),
                y <= y_hi || y == y_lo,
                disc == (|px: int, py: int| in_disc(xc as int, yc as int, r as int, px, py)),
                painted(orig, self.data@, c, h as int, w as int, color@, |px: int, py: int| disc(px, py) && py < y),
            decreases y_hi - y,
        {
            let mut x = x_lo;
            let dy: i64 = y as i64 - yc as i64;
            proof {
                assert forall|px: int, py: int| 0 <= px < w && 0 <= py < h implies
                    (#[trigger] disc(px, py) && py < y) == (disc(px, py) && (py < y || (py == y && px < x))) by {
                    if disc(px, py) {
                        lemma_disc_bounds(xc as int, yc as int, r as int, px, py);
                    }
                }
                lemma_painted_same(orig, self.data@, c, h as int, w as int, color@,
                    |px: int, py: int| disc(px, py) && py < y,
                    |px: int, py: int| disc(px, py) && (py < y || (py == y && px < x)));
            }
            while x < x_hi
                invariant
                    self.wf(),
                    c == self.channels,
                    h == self.height,
                    w == self.width,
                    color.len() >= c,
                    xc + r <= LINE_LIMIT,
                    yc + r <= LINE_LIMIT,
                    r <= CIRCLE_LIMIT,
                    r2 == r * r,
                    x_lo == (if xc >= r { xc - r } else { 0 }),
                    x_hi == (if xc + r + 1 <= w { (xc + r + 1) as usize } else { w }),
                    x_lo <= x,
                    x <= x_hi || x == x_lo,
                    y < h,
                    yc - r <= y <= yc + r,
                    dy == y - yc,
                    disc == (|px: int, py: int| in_disc(xc as int, yc as int, r as int, px, py)),
                    painted(orig, self.data@, c, h as int, w as int, color@,
                        |px: int, py: int| disc(px, py) && (py < y || (py == y && px < x))),
                decreases x_hi - x,
            {
                let dx: i64 = x as i64 - xc as i64;
                proof {
                    assert(0 <= dx * dx <= CIRCLE_LIMIT * CIRCLE_LIMIT) by (nonlinear_arith)
                        requires
                            -(r as int) <= dx <= r,
                            r <= CIRCLE_LIMIT,
                    ;
                    assert(0 <= dy * dy <= CIRCLE_LIMIT * CIRCLE_LIMIT) by (nonlinear_arith)
                        requires
                            -(r as int) <= dy <= r,
                            r <= CIRCLE_LIMIT,
                    ;
                    assert(dx * dx + dy * dy <= 2 * CIRCLE_LIMIT * CIRCLE_LIMIT) by (nonlinear_arith)
                        requires
                            -(r as int) <= dx <= r,
                            -(r as int) <= dy <= r,
                            r <= CIRCLE_LIMIT,
                    ;
                }
                let inside = (dx as i128) * (dx as i128) + (dy as i128) * (dy as i128) <= r2 as i128;
                let ghost before = self.data@;
                if inside {
                    self.set_pixel(x, y, color);
                    proof {
                        lemma_painted_compose(orig, before, self.data@, c, h as int, w as int, color@,
                            |px: int, py: int| disc(px, py) && (py < y || (py == y && px < x)),
                            |px: int, py: int| px == x && py == y);
                        lemma_painted_same(orig, self.data@, c, h as int, w as int, color@,
                            |px: int, py: int| (disc(px, py) && (py < y || (py == y && px < x))) || (px == x && py == y),
                            |px: int, py: int| disc(px, py) && (py < y || (py == y && px < x + 1)));
                    }
                } else {
                    proof {
                        lemma_painted_same(orig, self.data@, c, h as int, w as int, color@,
                            |px: int, py: int| disc(px, py) && (py < y || (py == y && px < x)),
                            |px: int, py: int| disc(px, py) && (py < y || (py == y && px < x + 1)));
                    }
                }
                x = x + 1;
            }
            proof {
                assert forall|px: int, py: int| 0 <= px < w && 0 <= py < h implies
                    (#[trigger] disc(px, py) && (py < y || (py == y && px < x))) == (disc(px, py) && py < y + 1) by {
                    if disc(px, py) {
                        lemma_disc_bounds(xc as int, yc as int, r as int, px, py);
                    }
                }
                lemma_painted_same(orig, self.data@, c, h as int, w as int, color@,
                    |px: int, py: int| disc(px, py) && (py < y || (py == y && px < x)),
                    |px: int, py: int| disc(px, py) && py < y + 1);
            }
            y = y + 1;
        }
        proof {
            assert forall|px: int, py: int| 0 <= px < w && 0 <= py < h implies
                (#[trigger] disc(px, py) && py < y) == disc(px, py) by {
                if disc(px, py) {
                    lemma_disc_bounds(xc as int, yc as int, r as int, px, py);
                }
            }
            lemma_painted_same(orig, self.data@, c, h as int, w as int, color@,
                |px: int, py: int| disc(px, py) && py < y, disc);
        }
    }
}

impl<T: Copy> Canvas<T> {
    /// Draws the circle of radius `radius` around `center` with the midpoint
    /// algorithm when `thickness >= 0`, and fills the disc (clipped to the
    /// canvas) when `thickness < 0`.
    pub fn draw_circle(&mut self, center: Point<usize>, radius: usize, color: &Vec<T>, thickness: i32)
        requires
            old(self).wf(),
            color.len() >= old(self).channels,
            center.x + radius + 2 <= LINE_LIMIT,
            center.y + radius + 2 <= LINE_LIMIT,
            radius as u64 <= RADIUS_LIMIT,
            thickness < 0 ==> radius <= CIRCLE_LIMIT,
        ensures
            final(self).wf(),
            final(self).channels == old(self).channels,
            final(self).height == old(self).height,
            final(self).width == old(self).width,
            painted(
                old(self).data@,
                final(self).data@,
                old(self).channels as int,
                old(self).height as int,
                old(self).width as int,
                color@,
                |px: int, py: int| if thickness >= 0 {
                    on_circle(center.x as int, center.y as int, radius as int, px, py)
                } else {
                    in_disc(center.x as int, center.y as int, radius as int, px, py)
                },
            ),
    {
        let ghost c = self.channels as int;
        let ghost h = self.height as int;
        let ghost w = self.width as int;
        let ghost orig = self.data@;
        let ghost want = |px: int, py: int| if thickness >= 0 {
            on_circle(center.x as int, center.y as int, radius as int, px, py)
        } else {
            in_disc(center.x as int, center.y as int, radius as int, px, py)
        };
        if thickness < 0 {
            self.fill_disc(center.x, center.y, radius, color);
            proof {
                lemma_painted_same(orig, self.data@, c, h, w, color@,
                    |px: int, py: int| in_disc(center.x as int, center.y as int, radius as int, px, py), want);
            }
            return;
        }
        let xc = center.x as i64;
        let yc = center.y as i64;
        let r = radius as i64;
        let ghost gr = r as int;
        let mut x: i64 = 0;
        let mut y: i64 = r;
        let mut d: i128 = 3 - 2 * (r as i128);
        let ghost mut k: nat = 0;
        self.draw_sym(xc, yc, x, y, color);
        proof {
            let pre = |px: int, py: int| circle_prefix(xc as int, yc as int, gr, 1, px, py);
            assert forall|px: int, py: int| 0 <= px < w && 0 <= py < h implies
                #[trigger] sym8(xc as int, yc as int, x as int, y as int, px, py) == pre(px, py) by {
                if sym8(xc as int, yc as int, x as int, y as int, px, py) {
                    assert(circle_state(gr, 0).0 == x);
                }
            }
            lemma_painted_same(orig, self.data@, c, h, w, color@,
                |px: int, py: int| sym8(xc as int, yc as int, x as int, y as int, px, py), pre);
            assert(3 + 2 * gr + x * (4 * gr + 18) == 3 + 2 * gr) by (nonlinear_arith)
                requires
                    x == 0,
            ;
        }
        while y >= x
            invariant
                self.wf(),
                c == self.channels,
                h == self.height,
                w == self.width,
                color.len() >= c,
                xc == center.x,
                yc == center.y,
                0 <= xc,
                0 <= yc,
                xc + gr + 2 <= LINE_LIMIT,
                yc + gr + 2 <= LINE_LIMIT,
                gr == r,
                0 <= r <= RADIUS_LIMIT,
                (x as int, y as int, d as int) == circle_state(gr, k),
                x == k,
                0 <= x <= r + 1,
                x - 2 <= y <= r,
                -(3 + 2 * gr + x * (4 * gr + 18)) <= d <= 3 + 2 * gr + x * (4 * gr + 18),
                3 + 2 * gr + x * (4 * gr + 18) <= 0x7000_0000_0000_0000_0000_0000_0000_0000,
                forall|j: nat| j < k ==> #[trigger] circle_state(gr, j).1 >= circle_state(gr, j).0,
                painted(orig, self.data@, c, h, w, color@,
                    |px: int, py: int| circle_prefix(xc as int, yc as int, gr, k + 1, px, py)),
            decreases y - x + 2,
        {
            let ghost s0 = (x as int, y as int, d as int);
            let ghost s1 = circle_step(s0);
            proof {
                lemma_circle_bound(x as int, y as int, d as int, gr, s1.0, s1.1, s1.2);
            }
            x = x + 1;
            if d > 0 {
                y = y - 1;
                d = d + 4 * ((x - y) as i128) + 10;
            } else {
                d = d + 4 * (x as i128) + 6;
            }
            proof {
                k = k + 1;
                assert(circle_state(gr, k) == circle_step(circle_state(gr, (k - 1) as nat)));
            }
            let ghost before = self.data@;
            self.draw_sym(xc, yc, x, y, color);
            proof {
                let s_old = |px: int, py: int| circle_prefix(xc as int, yc as int, gr, k, px, py);
                let s_new = |px: int, py: int| circle_prefix(xc as int, yc as int, gr, k + 1, px, py);
                let s_sym = |px: int, py: int| sym8(xc as int, yc as int, x as int, y as int, px, py);
                lemma_painted_compose(orig, before, self.data@, c, h, w, color@, s_old, s_sym);
                assert forall|px: int, py: int| 0 <= px < w && 0 <= py < h implies
                    (#[trigger] s_old(px, py) || s_sym(px, py)) == s_new(px, py) by {
                    if s_sym(px, py) {
                        assert(circle_state(gr, k).0 == x);
                    }
                    if s_new(px, py) {
                        let j = choose|j: nat| j < k + 1 && sym8(xc as int, yc as int, #[trigger] circle_state(gr, j).0, circle_state(gr, j).1, px, py);
                        if j < k {
                            assert(s_old(px, py));
                        }
                    }
                }
                lemma_painted_same(orig, self.data@, c, h, w, color@,
                    |px: int, py: int| s_old(px, py) || s_sym(px, py), s_new);
                assert forall|j: nat| j < k implies #[trigger] circle_state(gr, j).1 >= circle_state(gr, j).0 by {
                    if j < k - 1 {
                    } else {
                        assert(j == k - 1);
                    }
                }
            }
        }
        proof {
            let s_fin = |px: int, py: int| circle_prefix(xc as int, yc as int, gr, k + 1, px, py);
            assert forall|px: int, py: int| 0 <= px < w && 0 <= py < h implies
                #[trigger] s_fin(px, py) == want(px, py) by {
                if s_fin(px, py) {
                    let j = choose|j: nat| j < k + 1 && sym8(xc as int, yc as int, #[trigger] circle_state(gr, j).0, circle_state(gr, j).1, px, py);
                    assert forall|i: nat| i < j implies #[trigger] circle_state(gr, i).1 >= circle_state(gr, i).0 by {}
                }
                if want(px, py) {
                    let j = choose|j: nat| sym8(xc as int, yc as int, #[trigger] circle_state(gr, j).0, circle_state(gr, j).1, px, py)
                        && forall|i: nat| i < j ==> #[trigger] circle_state(gr, i).1 >= circle_state(gr, i).0;
                    if j > k {
                        assert(circle_state(gr, k).1 >= circle_state(gr, k).0);
                    }
                    assert(j < k + 1);
                }
            }
            lemma_painted_same(orig, self.data@, c, h, w, color@, s_fin, want);
        }
    }
}

impl<T: Copy> Canvas<T> {
    /// Draws the segments joining consecutive points; fewer than two points
    /// draw nothing. The thickness is not used.
    pub fn draw_polyline(&mut self, points: &[Point<usize>], color: &Vec<T>, _thickness: i32)
        requires
            old(self).wf(),
            color.len() >= old(self).channels,
            forall|i: int| 0 <= i < points.len() ==> (#[trigger] points[i]).x <= LINE_LIMIT && points[i].y <= LINE_LIMIT,
        ensures
            final(self).wf(),
            final(self).channels == old(self).channels,
            final(self).height == old(self).height,
            final(self).width == old(self).width,
            painted(
                old(self).data@,
                final(self).data@,
                old(self).channels as int,
                old(self).height as int,
                old(self).width as int,
                color@,
                |px: int, py: int| on_polyline(points@, px, py),
            ),
    {
        let ghost c = self.channels as int;
        let ghost h = self.height as int;
        let ghost w = self.width as int;
        let ghost orig = self.data@;
        let ghost pts = points@;
        let n = points.len();
        if n < 2 {
            proof {
                lemma_painted_same(orig, self.data@, c, h, w, color@, |px: int, py: int| false,
                    |px: int, py: int| on_polyline(pts, px, py));
            }
            return;
        }
        let mut i: usize = 0;
        proof {
            lemma_painted_same(orig, self.data@, c, h, w, color@, |px: int, py: int| false,
                |px: int, py: int| exists|q: int| 0 <= q < i && #[trigger] on_line(pts[q].x as int, pts[q].y as int,
                    pts[q + 1].x as int, pts[q + 1].y as int, px, py));
        }
        while i < n - 1
            invariant
                self.wf(),
                c == self.channels,
                h == self.height,
                w == self.width,
                color.len() >= c,
                pts == points@,
                n == points.len(),
                n >= 2,
                i <= n - 1,
                forall|q: int| 0 <= q < points.len() ==> (#[trigger] points[q]).x <= LINE_LIMIT && points[q].y <= LINE_LIMIT,
                painted(orig, self.data@, c, h, w, color@,
                    |px: int, py: int| exists|q: int| 0 <= q < i && #[trigger] on_line(pts[q].x as int, pts[q].y as int,
                        pts[q + 1].x as int, pts[q + 1].y as int, px, py)),
            decreases n - 1 - i,
        {
            let a = points[i];
            let b = points[i + 1];
            let ghost before = self.data@;
            self.draw_line(a, b, color);
            proof {
                let s_old = |px: int, py: int| exists|q: int| 0 <= q < i && #[trigger] on_line(pts[q].x as int, pts[q].y as int,
                    pts[q + 1].x as int, pts[q + 1].y as int, px, py);
                let s_new = |px: int, py: int| exists|q: int| 0 <= q < i + 1 && #[trigger] on_line(pts[q].x as int, pts[q].y as int,
                    pts[q + 1].x as int, pts[q + 1].y as int, px, py);
                let s_seg = |px: int, py: int| on_line(a.x as int, a.y as int, b.x as int, b.y as int, px, py);
                lemma_painted_compose(orig, before, self.data@, c, h, w, color@, s_old, s_seg);
                assert forall|px: int, py: int| 0 <= px < w && 0 <= py < h implies
                    (#[trigger] s_old(px, py) || s_seg(px, py)) == s_new(px, py) by {
                    if s_seg(px, py) {
                        assert(on_line(pts[i as int].x as int, pts[i as int].y as int, pts[i + 1].x as int, pts[i + 1].y as int, px, py));
                    }
                    if s_new(px, py) {
                        let q = choose|q: int| 0 <= q < i + 1 && #[trigger] on_line(pts[q].x as int, pts[q].y as int,
                            pts[q + 1].x as int, pts[q + 1].y as int, px, py);
                        if q < i {
                            assert(s_old(px, py));
                        }
                    }
                }
                lemma_painted_same(orig, self.data@, c, h, w, color@, |px: int, py: int| s_old(px, py) || s_seg(px, py), s_new);
            }
            i = i + 1;
        }
    }
}

impl<T: Copy> Canvas<T> {
    /// Draws the marker `marker_type` of size `marker_size` centred on `center`.
    pub fn draw_marker(&mut self, center: Point<usize>, color: &Vec<T>, marker_type: MarkerType, marker_size: usize)
        requires
            old(self).wf(),
            color.len() >= old(self).channels,
            center.x + marker_size + 2 <= LINE_LIMIT,
            center.y + marker_size + 2 <= LINE_LIMIT,
            center.x + marker_size <= usize::MAX,
            center.y + marker_size <= usize::MAX,
            marker_size <= CIRCLE_LIMIT,
        ensures
            final(self).wf(),
            final(self).channels == old(self).channels,
            final(self).height == old(self).height,
            final(self).width == old(self).width,
            painted(
                old(self).data@,
                final(self).data@,
                old(self).channels as int,
                old(self).height as int,
                old(self).width as int,
                color@,
                |px: int, py: int| marker_pixels(center.x as int, center.y as int, marker_type, marker_size as int, px, py),
            ),
    {
        let ghost c = self.channels as int;
        let ghost h = self.height as int;
        let ghost w = self.width as int;
        let ghost orig = self.data@;
        let ghost cx = center.x as int;
        let ghost cy = center.y as int;
        let ghost want = |px: int, py: int| marker_pixels(cx, cy, marker_type, marker_size as int, px, py);
        let half = marker_size / 2;
        let left = center.x.saturating_sub(half);
        let top = center.y.saturating_sub(half);
        let right = center.x + half;
        let bottom = center.y + half;
        match marker_type {
            MarkerType::Cross => {
                let a1 = Point::new(left, center.y);
                let b1 = Point::new(right, center.y);
                let a2 = Point::new(center.x, top);
                let b2 = Point::new(center.x, bottom);
                self.draw_line(a1, b1, color);
                let ghost mid = self.data@;
                self.draw_line(a2, b2, color);
                proof {
                    let s1 = |px: int, py: int| on_line(a1.x as int, a1.y as int, b1.x as int, b1.y as int, px, py);
                    let s2 = |px: int, py: int| on_line(a2.x as int, a2.y as int, b2.x as int, b2.y as int, px, py);
                    lemma_painted_compose(orig, mid, self.data@, c, h, w, color@, s1, s2);
                    lemma_painted_same(orig, self.data@, c, h, w, color@, |px: int, py: int| s1(px, py) || s2(px, py), want);
                }
            },
            MarkerType::TiltedCross => {
                let a1 = Point::new(left, top);
                let b1 = Point::new(right, bottom);
                let a2 = Point::new(right, top);
                let b2 = Point::new(left, bottom);
                self.draw_line(a1, b1, color);
                let ghost mid = self.data@;
                self.draw_line(a2, b2, color);
                proof {
                    let s1 = |px: int, py: int| on_line(a1.x as int, a1.y as int, b1.x as int, b1.y as int, px, py);
                    let s2 = |px: int, py: int| on_line(a2.x as int, a2.y as int, b2.x as int, b2.y as int, px, py);
                    lemma_painted_compose(orig, mid, self.data@, c, h, w, color@, s1, s2);
                    lemma_painted_same(orig, self.data@, c, h, w, color@, |px: int, py: int| s1(px, py) || s2(px, py), want);
                }
            },
            MarkerType::Diamond => {
                let pts = [
                    Point::new(center.x, top),
                    Point::new(right, center.y),
                    Point::new(center.x, bottom),
                    Point::new(left, center.y),
                    Point::new(center.x, top),
                ];
                proof {
                    assert(pts@ =~= diamond_points(cx, cy, half as int));
                }
                self.draw_polyline(&pts, color, 1);
                proof {
                    lemma_painted_same(orig, self.data@, c, h, w, color@,
                        |px: int, py: int| on_polyline(pts@, px, py), want);
                }
            },
            MarkerType::Square => {
                self.draw_rectangle(Rect::new(left, top, marker_size, marker_size), color, 1);
                proof {
                    lemma_painted_same(orig, self.data@, c, h, w, color@,
                        |px: int, py: int| rect_outline(left as int, top as int, marker_size as int, marker_size as int, px, py),
                        want);
                }
            },
            MarkerType::Circle => {
                self.draw_circle(center, half, color, 1);
                proof {
                    lemma_painted_same(orig, self.data@, c, h, w, color@,
                        |px: int, py: int| on_circle(cx, cy, half as int, px, py), want);
                }
            },
            MarkerType::Filled => {
                self.draw_circle(center, half, color, -1);
                proof {
                    lemma_painted_same(orig, self.data@, c, h, w, color@,
                        |px: int, py: int| in_disc(cx, cy, half as int, px, py), want);
                }
            },
        }
    }
}

/// Value of channel `ch` at `(x, y)` of the canvas holding `a` at the left
/// and `b` to its right, `fill` where neither reaches.
pub open spec fn side_by_side_at<T>(a: Canvas<T>, b: Canvas<T>, fill: T, ch: int, x: int, y: int) -> T {
    if x < a.width && y < a.height {
        a.data@[pix(a.height as int, a.width as int, ch, x, y)]
    } else if a.width <= x < a.width + b.width && y < b.height {
        b.data@[pix(b.height as int, b.width as int, ch, x - a.width, y)]
    } else {
        fill
    }
}

/// The copy of position `(sx, sy)` of channel `k` comes before position
/// `(x, y)` of channel `ch` in channel-major, row-major order.
pub open spec fn copied_before(k: int, sx: int, sy: int, ch: int, x: int, y: int) -> bool {
    k < ch || (k == ch && (sy < y || (sy == y && sx < x)))
}

impl<T: Copy> Canvas<T> {
    /// A `channels` x `height` x `width` canvas with every value `fill`.
    pub fn filled(channels: usize, height: usize, width: usize, fill: T) -> (out: Self)
        requires
            channels * height * width <= usize::MAX,
        ensures
            out.wf(),
            out.channels == channels,
            out.height == height,
            out.width == width,
            forall|i: int| 0 <= i < out.data.len() ==> #[trigger] out.data@[i] == fill,
    {
        let n = if width == 0 {
            0
        } else {
            proof {
                assert(channels * height <= channels * height * width) by (nonlinear_arith)
                    requires
                        width >= 1,
                ;
            }
            channels * height * width
        };
        proof {
            assert(n == channels * height * width) by (nonlinear_arith)
                requires
                    n == (if width == 0 { 0 } else { channels * height * width }),
            ;
        }
        let mut data: Vec<T> = Vec::new();
        let mut i: usize = 0;
        while i < n
            invariant
                i <= n,
                data.len() == i,
                forall|k: int| 0 <= k < i ==> #[trigger] data@[k] == fill,
            decreases n - i,
        {
            data.push(fill);
            i = i + 1;
        }
        Canvas { channels, height, width, data }
    }

    /// Copies the first `self.channels` channels of `src` onto this canvas
    /// with its left edge at column `ox`.
    fn blit(&mut self, src: &Canvas<T>, ox: usize)
        requires
            old(self).wf(),
            src.wf(),
            src.height <= old(self).height,
            ox + src.width <= old(self).width,
            old(self).channels <= src.channels || src.height == 0 || src.width == 0,
        ensures
            final(self).wf(),
            final(self).channels == old(self).channels,
            final(self).height == old(self).height,
            final(self).width == old(self).width,
            forall|k: int, px: int, py: int|
                0 <= k < old(self).channels && 0 <= px < old(self).width && 0 <= py < old(self).height
                    ==> #[trigger] final(self).data@[pix(old(self).height as int, old(self).width as int, k, px, py)]
                    == if ox <= px < ox + src.width && py < src.height {
                    src.data@[pix(src.height as int, src.width as int, k, px - ox, py)]
                } else {
                    old(self).data@[pix(old(self).height as int, old(self).width as int, k, px, py)]
                },
    {
        let c = self.channels;
        let h = self.height;
        let w = self.width;
        let sh = src.height;
        let sw = src.width;
        let ghost orig = self.data@;
        if sh == 0 || sw == 0 {
            return;
        }
        let mut ch: usize = 0;
        while ch < c
            invariant
                self.wf(),
                src.wf(),
                c == self.channels,
                h == self.height,
                w == self.width,
                sh == src.height,
                sw == src.width,
                sh > 0,
                sw > 0,
                sh <= h,
                ox + sw <= w,
                c <= src.channels,
                ch <= c,
                self.data@.len() == orig.len(),
                forall|k: int, px: int, py: int|
                    0 <= k < c && 0 <= px < w && 0 <= py < h ==> #[trigger] self.data@[pix(h as int, w as int, k, px, py)]
                        == if ox <= px < ox + sw && py < sh && k < ch {
                        src.data@[pix(sh as int, sw as int, k, px - ox, py)]
                    } else {
                        orig[pix(h as int, w as int, k, px, py)]
                    },
            decreases c - ch,
        {
            let mut y: usize = 0;
            while y < sh
                invariant
                    self.wf(),
                    src.wf(),
                    c == self.channels,
                    h == self.height,
                    w == self.width,
                    sh == src.height,
                    sw == src.width,
                    sh <= h,
                    ox + sw <= w,
                    c <= src.channels,
                    ch < c,
                    y <= sh,
                    self.data@.len() == orig.len(),
                    forall|k: int, px: int, py: int|
                        0 <= k < c && 0 <= px < w && 0 <= py < h ==> #[trigger] self.data@[pix(h as int, w as int, k, px, py)]
                            == if ox <= px < ox + sw && py < sh && (k < ch || (k == ch && py < y)) {
                            src.data@[pix(sh as int, sw as int, k, px - ox, py)]
                        } else {
                            orig[pix(h as int, w as int, k, px, py)]
                        },
                decreases sh - y,
            {
                let mut x: usize = 0;
                while x < sw
                    invariant
                        self.wf(),
                        src.wf(),
                        c == self.channels,
                        h == self.height,
                        w == self.width,
                        sh == src.height,
                        sw == src.width,
                        sh <= h,
                        ox + sw <= w,
                        c <= src.channels,
                        ch < c,
                        y < sh,
                        x <= sw,
                        self.data@.len() == orig.len(),
                        forall|k: int, px: int, py: int|
                            0 <= k < c && 0 <= px < w && 0 <= py < h ==> #[trigger] self.data@[pix(h as int, w as int, k, px, py)]
                                == if ox <= px < ox + sw && py < sh && copied_before(k, px - ox, py, ch as int, x as int, y as int) {
                                src.data@[pix(sh as int, sw as int, k, px - ox, py)]
                            } else {
                                orig[pix(h as int, w as int, k, px, py)]
                            },
                    decreases sw - x,
                {
                    proof {
                        lemma_pix_terms(src.channels as int, sh as int, sw as int, ch as int, x as int, y as int);
                        lemma_pix_terms(c as int, h as int, w as int, ch as int, (ox + x) as int, y as int);
                    }
                    let v = src.data[ch * sh * sw + y * sw + x];
                    let idx = ch * h * w + y * w + (ox + x);
                    self.data.set(idx, v);
                    proof {
                        assert forall|k: int, px: int, py: int| 0 <= k < c && 0 <= px < w && 0 <= py < h implies
                            #[trigger] self.data@[pix(h as int, w as int, k, px, py)]
                                == if ox <= px < ox + sw && py < sh && copied_before(k, px - ox, py, ch as int, x + 1, y as int) {
                                src.data@[pix(sh as int, sw as int, k, px - ox, py)]
                            } else {
                                orig[pix(h as int, w as int, k, px, py)]
                            } by {
                            lemma_pix_range(c as int, h as int, w as int, k, px, py);
                            if pix(h as int, w as int, k, px, py) == idx {
                                lemma_pix_unique(h as int, w as int, k, px, py, ch as int, (ox + x) as int, y as int);
                            }
                        }
                    }
                    x = x + 1;
                }
                y = y + 1;
            }
            ch = ch + 1;
        }
    }

    /// The canvas holding `a` at the left and `b` to its right, as tall as the
    /// taller of the two and `fill` where neither reaches; it has the channels
    /// of `a`.
    pub fn side_by_side(a: &Canvas<T>, b: &Canvas<T>, fill: T) -> (out: Canvas<T>)
        requires
            a.wf(),
            b.wf(),
            a.width + b.width <= usize::MAX,
            a.channels * (if a.height >= b.height { a.height } else { b.height }) * (a.width + b.width) <= usize::MAX,
            a.channels <= b.channels || b.height == 0 || b.width == 0,
        ensures
            out.wf(),
            out.channels == a.channels,
            out.height == (if a.height >= b.height { a.height } else { b.height }),
            out.width == a.width + b.width,
            forall|k: int, px: int, py: int|
                0 <= k < out.channels && 0 <= px < out.width && 0 <= py < out.height
                    ==> #[trigger] out.data@[pix(out.height as int, out.width as int, k, px, py)]
                    == side_by_side_at(*a, *b, fill, k, px, py),
    {
        let out_h = if a.height >= b.height { a.height } else { b.height };
        let out_w = a.width + b.width;
        let mut out = Canvas::filled(a.channels, out_h, out_w, fill);
        let ghost blank = out.data@;
        proof {
            assert forall|k: int, px: int, py: int| 0 <= k < a.channels && 0 <= px < out_w && 0 <= py < out_h implies
                0 <= #[trigger] pix(out_h as int, out_w as int, k, px, py) < blank.len() by {
                lemma_pix_range(a.channels as int, out_h as int, out_w as int, k, px, py);
            }
        }
        out.blit(a, 0);
        out.blit(b, a.width);
        out
    }
}

/// Pixels of the segments joining, for every match `(q, t)`, keypoint `q`
/// of the left image to keypoint `t` of the right one shifted right by `shift`.
pub open spec fn on_match_lines(
    pts1: Seq<Point<usize>>,
    pts2: Seq<Point<usize>>,
    matches: Seq<(usize, usize)>,
    shift: int,
    n: int,
    px: int,
    py: int,
) -> bool {
    exists|i: int|
        0 <= i < n && #[trigger] on_line(
            pts1[matches[i].0 as int].x as int,
            pts1[matches[i].0 as int].y as int,
            pts2[matches[i].1 as int].x + shift,
            pts2[matches[i].1 as int].y as int,
            px,
            py,
        )
}

impl MatchDrawer {
    /// Places `img1` and `img2` side by side (`fill` where neither reaches)
    /// and draws, in `color`, a line for every match `(q, t)` from keypoint
    /// `kps1[q]` to keypoint `kps2[t]` of the right image.
    pub fn draw_matches<T: Copy>(
        img1: &Canvas<T>,
        kps1: &Vec<Point<usize>>,
        img2: &Canvas<T>,
        kps2: &Vec<Point<usize>>,
        matches: &Vec<(usize, usize)>,
        color: &Vec<T>,
        fill: T,
    ) -> (out: Canvas<T>)
        requires
            img1.wf(),
            img2.wf(),
            img1.width + img2.width <= usize::MAX,
            img1.channels * (if img1.height >= img2.height { img1.height } else { img2.height }) * (img1.width
                + img2.width) <= usize::MAX,
            img1.channels <= img2.channels || img2.height == 0 || img2.width == 0,
            color.len() >= img1.channels,
            forall|i: int| 0 <= i < matches.len() ==> (#[trigger] matches@[i]).0 < kps1.len() && matches@[i].1 < kps2.len(),
            forall|i: int| 0 <= i < kps1.len() ==> (#[trigger] kps1@[i]).x <= LINE_LIMIT && kps1@[i].y <= LINE_LIMIT,
            forall|i: int| 0 <= i < kps2.len() ==> (#[trigger] kps2@[i]).x + img1.width <= LINE_LIMIT && kps2@[i].y <= LINE_LIMIT,
            forall|i: int| 0 <= i < kps2.len() ==> (#[trigger] kps2@[i]).x + img1.width <= usize::MAX,
        ensures
            out.wf(),
            out.channels == img1.channels,
            out.height == (if img1.height >= img2.height { img1.height } else { img2.height }),
            out.width == img1.width + img2.width,
            forall|k: int, px: int, py: int|
                0 <= k < out.channels && 0 <= px < out.width && 0 <= py < out.height
                    ==> #[trigger] out.data@[pix(out.height as int, out.width as int, k, px, py)] == if on_match_lines(
                    kps1@,
                    kps2@,
                    matches@,
                    img1.width as int,
                    matches.len() as int,
                    px,
                    py,
                ) {
                    color@[k]
                } else {
                    side_by_side_at(*img1, *img2, fill, k, px, py)
                },
    {
        let mut out = Canvas::side_by_side(img1, img2, fill);
        let ghost base = out.data@;
        let ghost c = out.channels as int;
        let ghost h = out.height as int;
        let ghost w = out.width as int;
        let shift = img1.width;
        let mut i: usize = 0;
        proof {
            lemma_painted_nothing(base, c, h, w, color@);
            lemma_painted_same(base, out.data@, c, h, w, color@, |px: int, py: int| false,
                |px: int, py: int| on_match_lines(kps1@, kps2@, matches@, shift as int, i as int, px, py));
        }
        while i < matches.len()
            invariant
                out.wf(),
                c == out.channels,
                h == out.height,
                w == out.width,
                c == img1.channels,
                color.len() >= c,
                shift == img1.width,
                i <= matches.len(),
                forall|q: int| 0 <= q < matches.len() ==> (#[trigger] matches@[q]).0 < kps1.len() && matches@[q].1 < kps2.len(),
                forall|q: int| 0 <= q < kps1.len() ==> (#[trigger] kps1@[q]).x <= LINE_LIMIT && kps1@[q].y <= LINE_LIMIT,
                forall|q: int| 0 <= q < kps2.len() ==> (#[trigger] kps2@[q]).x + img1.width <= LINE_LIMIT && kps2@[q].y <= LINE_LIMIT,
                forall|q: int| 0 <= q < kps2.len() ==> (#[trigger] kps2@[q]).x + img1.width <= usize::MAX,
                painted(base, out.data@, c, h, w, color@,
                    |px: int, py: int| on_match_lines(kps1@, kps2@, matches@, shift as int, i as int, px, py)),
            decreases matches.len() - i,
        {
            let (q, t) = matches[i];
            let a = kps1[q];
            let b = kps2[t];
            let p2 = Point::new(b.x + shift, b.y);
            let ghost before = out.data@;
            out.draw_line(a, p2, color);
            proof {
                let s_old = |px: int, py: int| on_match_lines(kps1@, kps2@, matches@, shift as int, i as int, px, py);
                let s_new = |px: int, py: int| on_match_lines(kps1@, kps2@, matches@, shift as int, i + 1, px, py);
                let s_seg = |px: int, py: int| on_line(a.x as int, a.y as int, p2.x as int, p2.y as int, px, py);
                lemma_painted_compose(base, before, out.data@, c, h, w, color@, s_old, s_seg);
                assert forall|px: int, py: int| 0 <= px < w && 0 <= py < h implies
                    (#[trigger] s_old(px, py) || s_seg(px, py)) == s_new(px, py) by {
                    if s_seg(px, py) {
                        assert(on_line(
                            kps1@[matches@[i as int].0 as int].x as int,
                            kps1@[matches@[i as int].0 as int].y as int,
                            kps2@[matches@[i as int].1 as int].x + shift,
                            kps2@[matches@[i as int].1 as int].y as int,
                            px,
                            py,
                        ));
                    }
                    if s_new(px, py) {
                        let j = choose|j: int| 0 <= j < i + 1 && #[trigger] on_line(
                            kps1@[matches@[j].0 as int].x as int,
                            kps1@[matches@[j].0 as int].y as int,
                            kps2@[matches@[j].1 as int].x + shift,
                            kps2@[matches@[j].1 as int].y as int,
                            px,
                            py,
                        );
                        if j < i {
                            assert(s_old(px, py));
                        }
                    }
                }
                lemma_painted_same(base, out.data@, c, h, w, color@, |px: int, py: int| s_old(px, py) || s_seg(px, py), s_new);
            }
            i = i + 1;
        }
        proof {
            assert forall|k: int, px: int, py: int| 0 <= k < c && 0 <= px < w && 0 <= py < h implies
                #[trigger] out.data@[pix(h, w, k, px, py)] == if on_match_lines(kps1@, kps2@, matches@, img1.width as int,
                    matches.len() as int, px, py) {
                    color@[k]
                } else {
                    side_by_side_at(*img1, *img2, fill, k, px, py)
                } by {
                assert(base[pix(h, w, k, px, py)] == side_by_side_at(*img1, *img2, fill, k, px, py));
            }
        }
        out
    }
}

/// Row `row` of glyph column `bits` is set.
pub open spec fn glyph_bit(bits: u8, row: int) -> bool {
    (bits & (1u8 << (row as u8))) != 0u8
}

/// The scale-by-scale block of row `row` of column `col` of character `i` of
/// `text`, drawn with its cell's top-left corner at `(ox, oy)`, when that
/// bit of its glyph is set; characters past 127 use glyph 127.
pub open spec fn text_block(
    font: [[u8; 5]; 128],
    text: Seq<u8>,
    ox: int,
    oy: int,
    s: int,
    i: int,
    col: int,
    row: int,
    px: int,
    py: int,
) -> bool {
    let g = if text[i] < 127 { text[i] as int } else { 127int };
    &&& glyph_bit(font[g][col], row)
    &&& in_box(ox + 6 * s * i + col * s, oy + row * s, ox + 6 * s * i + col * s + s, oy + row * s + s, px, py)
}

/// `(i2, c2, r2)` comes before `(i, c, r)` in character, column, row order.
pub open spec fn before3(i2: int, c2: int, r2: int, i: int, c: int, r: int) -> bool {
    i2 < i || (i2 == i && (c2 < c || (c2 == c && r2 < r)))
}

/// Pixels of the blocks of `text` that come before `(i, c, r)`.
pub open spec fn text_prefix(
    font: [[u8; 5]; 128],
    text: Seq<u8>,
    ox: int,
    oy: int,
    s: int,
    i: int,
    c: int,
    r: int,
    px: int,
    py: int,
) -> bool {
    exists|i2: int, c2: int, r2: int|
        0 <= i2 < text.len() && 0 <= c2 < 5 && 0 <= r2 < 7 && before3(i2, c2, r2, i, c, r) && #[trigger] text_block(
            font,
            text,
            ox,
            oy,
            s,
            i2,
            c2,
            r2,
            px,
            py,
        )
}

/// Pixels of `text` set in the 5 x 7 font `font` at scale `s`, starting at
/// `(ox, oy)`, each character 6 cells wide.
pub open spec fn text_pixels(font: [[u8; 5]; 128], text: Seq<u8>, ox: int, oy: int, s: int, px: int, py: int) -> bool {
    text_prefix(font, text, ox, oy, s, text.len() as int, 0, 0, px, py)
}

impl<T: Copy> Canvas<T> {
    /// Writes `text` with the 5 x 7 column-bitmap font `font` (bit `r` of a
    /// column byte is row `r`), each cell `scale` pixels square (at least
    /// one), from the top-left corner `org`; characters past 127 use glyph
    /// 127, and each character advances six cells.
    #[verifier::spinoff_prover]
    #[verifier::rlimit(40)]
    pub fn draw_text(&mut self, text: &[u8], org: Point<usize>, scale: usize, color: &Vec<T>, font: &[[u8; 5]; 128])
        requires
            old(self).wf(),
            color.len() >= old(self).channels,
            org.x + 6 * (if scale > 1 { scale as int } else { 1int }) * text.len() <= usize::MAX,
            org.y + 7 * (if scale > 1 { scale as int } else { 1int }) <= usize::MAX,
        ensures
            final(self).wf(),
            final(self).channels == old(self).channels,
            final(self).height == old(self).height,
            final(self).width == old(self).width,
            painted(
                old(self).data@,
                final(self).data@,
                old(self).channels as int,
                old(self).height as int,
                old(self).width as int,
                color@,
                |px: int, py: int| text_pixels(
                    *font,
                    text@,
                    org.x as int,
                    org.y as int,
                    if scale > 1 { scale as int } else { 1int },
                    px,
                    py,
                ),
            ),
    {
        let ghost c = self.channels as int;
        let ghost h = self.height as int;
        let ghost w = self.width as int;
        let ghost orig = self.data@;
        let ghost t = text@;
        let ghost f = *font;
        let s: usize = if scale > 1 { scale } else { 1 };
        let ghost ox = org.x as int;
        let ghost oy = org.y as int;
        let n = text.len();
        let mut cursor_x = org.x;
        let mut i: usize = 0;
        proof {
            lemma_painted_same(orig, self.data@, c, h, w, color@, |px: int, py: int| false,
                |px: int, py: int| text_prefix(f, t, ox, oy, s as int, 0, 0, 0, px, py));
        }
        while i < n
            invariant
                self.wf(),
                c == self.channels,
                h == self.height,
                w == self.width,
                color.len() >= c,
                t == text@,
                f == *font,
                n == text.len(),
                s >= 1,
                ox == org.x,
                oy == org.y,
                ox + 6 * s * n <= usize::MAX,
                oy + 7 * s <= usize::MAX,
                i <= n,
                cursor_x == ox + 6 * s * i,
                painted(orig, self.data@, c, h, w, color@,
                    |px: int, py: int| text_prefix(f, t, ox, oy, s as int, i as int, 0, 0, px, py)),
            decreases n - i,
        {
            let byte = text[i];
            let gi: usize = if byte < 127 { byte as usize } else { 127 };
            let glyph = font[gi];
            let mut col: usize = 0;
            while col < 5
                invariant
                    self.wf(),
                    c == self.channels,
                    h == self.height,
                    w == self.width,
                    color.len() >= c,
                    t == text@,
                    f == *font,
                    n == text.len(),
                    s >= 1,
                    ox + 6 * s * n <= usize::MAX,
                    oy + 7 * s <= usize::MAX,
                    oy == org.y,
                    i < n,
                    col <= 5,
                    cursor_x == ox + 6 * s * i,
                    byte == t[i as int],
                    gi == (if byte < 127 { byte as int } else { 127int }),
                    glyph == f[gi as int],
                    painted(orig, self.data@, c, h, w, color@,
                        |px: int, py: int| text_prefix(f, t, ox, oy, s as int, i as int, col as int, 0, px, py)),
                decreases 5 - col,
            {
                let bits = glyph[col];
                proof {
                    assert(6 * s * i + 5 * s <= 6 * s * n) by (nonlinear_arith)
                        requires
                            i < n,
                            s >= 1,
                    ;
                    assert(col * s + s <= 5 * s) by (nonlinear_arith)
                        requires
                            col < 5,
                            s >= 1,
                    ;
                    assert(0 <= col * s) by (nonlinear_arith);
                }
                let px_start = cursor_x + col * s;
                let mut row: u8 = 0;
                while row < 7
                    invariant
                        self.wf(),
                        c == self.channels,
                        h == self.height,
                        w == self.width,
                        color.len() >= c,
                        t == text@,
                        f == *font,
                        n == text.len(),
                        s >= 1,
                        oy + 7 * s <= usize::MAX,
                        oy == org.y,
                        i < n,
                        col < 5,
                        row <= 7,
                        px_start == ox + 6 * s * i + col * s,
                        px_start + s <= usize::MAX,
                        byte == t[i as int],
                        gi == (if byte < 127 { byte as int } else { 127int }),
                        bits == f[gi as int][col as int],
                        painted(orig, self.data@, c, h, w, color@,
                            |px: int, py: int| text_prefix(f, t, ox, oy, s as int, i as int, col as int, row as int, px, py)),
                    decreases 7 - row,
                {
                    proof {
                        assert(row * s + s <= 7 * s) by (nonlinear_arith)
                            requires
                                row < 7,
                                s >= 1,
                        ;
                        assert(0 <= row * s) by (nonlinear_arith);
                    }
                    let py_start = org.y + (row as usize) * s;
                    let ghost s_old = |px: int, py: int| text_prefix(f, t, ox, oy, s as int, i as int, col as int, row as int, px, py);
                    let ghost s_new = |px: int, py: int| text_prefix(f, t, ox, oy, s as int, i as int, col as int, row + 1, px, py);
                    let ghost s_blk = |px: int, py: int| text_block(f, t, ox, oy, s as int, i as int, col as int, row as int, px, py);
                    if (bits & (1u8 << row)) != 0 {
                        let ghost before = self.data@;
                        self.fill_box(px_start, py_start, px_start + s, py_start + s, color);
                        proof {
                            let s_box = |px: int, py: int| in_box(px_start as int, py_start as int, px_start + s, py_start + s, px, py);
                            lemma_painted_compose(orig, before, self.data@, c, h, w, color@, s_old, s_box);
                            assert(glyph_bit(bits, row as int));
                            assert forall|px: int, py: int| 0 <= px < w && 0 <= py < h implies
                                (#[trigger] s_old(px, py) || s_box(px, py)) == s_new(px, py) by {
                                if s_box(px, py) {
                                    assert(text_block(f, t, ox, oy, s as int, i as int, col as int, row as int, px, py));
                                }
                                if s_new(px, py) {
                                    let (i2, c2, r2) = choose|i2: int, c2: int, r2: int|
                                        0 <= i2 < t.len() && 0 <= c2 < 5 && 0 <= r2 < 7 && before3(i2, c2, r2, i as int, col as int, row + 1)
                                            && #[trigger] text_block(f, t, ox, oy, s as int, i2, c2, r2, px, py);
                                    if before3(i2, c2, r2, i as int, col as int, row as int) {
                                        assert(s_old(px, py));
                                    }
                                }
                            }
                            lemma_painted_same(orig, self.data@, c, h, w, color@,
                                |px: int, py: int| s_old(px, py) || s_box(px, py), s_new);
                        }
                    } else {
                        proof {
                            assert forall|px: int, py: int| 0 <= px < w && 0 <= py < h implies #[trigger] s_old(px, py) == s_new(px, py) by {
                                if s_new(px, py) {
                                    let (i2, c2, r2) = choose|i2: int, c2: int, r2: int|
                                        0 <= i2 < t.len() && 0 <= c2 < 5 && 0 <= r2 < 7 && before3(i2, c2, r2, i as int, col as int, row + 1)
                                            && #[trigger] text_block(f, t, ox, oy, s as int, i2, c2, r2, px, py);
                                    if before3(i2, c2, r2, i as int, col as int, row as int) {
                                        assert(s_old(px, py));
                                    } else {
                                        assert(!glyph_bit(bits, row as int));
                                    }
                                }
                            }
                            lemma_painted_same(orig, self.data@, c, h, w, color@, s_old, s_new);
                        }
                    }
                    row = row + 1;
                }
                proof {
                    let s_a = |px: int, py: int| text_prefix(f, t, ox, oy, s as int, i as int, col as int, 7, px, py);
                    let s_b = |px: int, py: int| text_prefix(f, t, ox, oy, s as int, i as int, col + 1, 0, px, py);
                    assert forall|px: int, py: int| 0 <= px < w && 0 <= py < h implies #[trigger] s_a(px, py) == s_b(px, py) by {
                        if s_a(px, py) {
                            let (i2, c2, r2) = choose|i2: int, c2: int, r2: int|
                                0 <= i2 < t.len() && 0 <= c2 < 5 && 0 <= r2 < 7 && before3(i2, c2, r2, i as int, col as int, 7)
                                    && #[trigger] text_block(f, t, ox, oy, s as int, i2, c2, r2, px, py);
                            assert(before3(i2, c2, r2, i as int, col + 1, 0));
                        }
                        if s_b(px, py) {
                            let (i2, c2, r2) = choose|i2: int, c2: int, r2: int|
                                0 <= i2 < t.len() && 0 <= c2 < 5 && 0 <= r2 < 7 && before3(i2, c2, r2, i as int, col + 1, 0)
                                    && #[trigger] text_block(f, t, ox, oy, s as int, i2, c2, r2, px, py);
                            assert(before3(i2, c2, r2, i as int, col as int, 7));
                        }
                    }
                    lemma_painted_same(orig, self.data@, c, h, w, color@, s_a, s_b);
                }
                col = col + 1;
            }
            proof {
                let s_a = |px: int, py: int| text_prefix(f, t, ox, oy, s as int, i as int, 5, 0, px, py);
                let s_b = |px: int, py: int| text_prefix(f, t, ox, oy, s as int, i + 1, 0, 0, px, py);
                assert forall|px: int, py: int| 0 <= px < w && 0 <= py < h implies #[trigger] s_a(px, py) == s_b(px, py) by {
                    if s_a(px, py) {
                        let (i2, c2, r2) = choose|i2: int, c2: int, r2: int|
                            0 <= i2 < t.len() && 0 <= c2 < 5 && 0 <= r2 < 7 && before3(i2, c2, r2, i as int, 5, 0)
                                && #[trigger] text_block(f, t, ox, oy, s as int, i2, c2, r2, px, py);
                        assert(before3(i2, c2, r2, i + 1, 0, 0));
                    }
                    if s_b(px, py) {
                        let (i2, c2, r2) = choose|i2: int, c2: int, r2: int|
                            0 <= i2 < t.len() && 0 <= c2 < 5 && 0 <= r2 < 7 && before3(i2, c2, r2, i + 1, 0, 0)
                                && #[trigger] text_block(f, t, ox, oy, s as int, i2, c2, r2, px, py);
                        assert(before3(i2, c2, r2, i as int, 5, 0));
                    }
                }
                lemma_painted_same(orig, self.data@, c, h, w, color@, s_a, s_b);
                assert(6 * s * (i + 1) == 6 * s * i + 6 * s) by (nonlinear_arith);
                assert(6 * s * (i + 1) <= 6 * s * n) by (nonlinear_arith)
                    requires
                        i < n,
                        s >= 1,
                ;
            }
            cursor_x = cursor_x + 6 * s;
            i = i + 1;
        }
        proof {
            lemma_painted_same(orig, self.data@, c, h, w, color@,
                |px: int, py: int| text_prefix(f, t, ox, oy, s as int, n as int, 0, 0, px, py),
                |px: int, py: int| text_pixels(*font, text@, org.x as int, org.y as int, if scale > 1 { scale as int } else { 1int }, px, py));
        }
    }
}

proof fn lemma_line_reaches(x0: int, y0: int, x1: int, y1: int, k: nat, i: int, j: int)
    requires
        0 <= i <= iabs(x1 - x0),
        0 <= j <= iabs(y1 - y0),
        line_state(x0, y0, x1, y1, k) == (
            x0 + (if x0 < x1 { 1int } else { -1int }) * i,
            y0 + (if y0 < y1 { 1int } else { -1int }) * j,
            iabs(x1 - x0) * (1 + j) - iabs(y1 - y0) * (1 + i),
        ),
    ensures
        exists|m: nat| m >= k && #[trigger] line_state(x0, y0, x1, y1, m).0 == x1 && line_state(x0, y0, x1, y1, m).1 == y1,
    decreases (iabs(x1 - x0) - i) + (iabs(y1 - y0) - j),
{
    let a = iabs(x1 - x0);
    let b = iabs(y1 - y0);
    let sx: int = if x0 < x1 { 1 } else { -1 };
    let sy: int = if y0 < y1 { 1 } else { -1 };
    let st = line_state(x0, y0, x1, y1, k);
    assert(sx * i == if x0 < x1 { i } else { -i }) by (nonlinear_arith)
        requires
            sx == (if x0 < x1 { 1int } else { -1int }),
    ;
    assert(sy * j == if y0 < y1 { j } else { -j }) by (nonlinear_arith)
        requires
            sy == (if y0 < y1 { 1int } else { -1int }),
    ;
    if i == a && j == b {
        assert(line_state(x0, y0, x1, y1, k).0 == x1 && line_state(x0, y0, x1, y1, k).1 == y1);
    } else {
        let err = st.2;
        lemma_bresenham_step(a, b, i, j, err);
        let nxt = line_state(x0, y0, x1, y1, k + 1);
        assert(nxt == line_step(a, -b, sx, sy, st));
        let i2 = if 2 * err >= -b { i + 1 } else { i };
        let j2 = if 2 * err <= a { j + 1 } else { j };
        assert(sx * i2 == if x0 < x1 { i2 } else { -i2 }) by (nonlinear_arith)
            requires
                sx == (if x0 < x1 { 1int } else { -1int }),
        ;
        assert(sy * j2 == if y0 < y1 { j2 } else { -j2 }) by (nonlinear_arith)
            requires
                sy == (if y0 < y1 { 1int } else { -1int }),
        ;
        lemma_line_reaches(x0, y0, x1, y1, (k + 1) as nat, i2, j2);
    }
}

proof fn lemma_first_arrival(x0: int, y0: int, x1: int, y1: int, m: nat)
    requires
        line_state(x0, y0, x1, y1, m).0 == x1 && line_state(x0, y0, x1, y1, m).1 == y1,
    ensures
        exists|k: nat|
            #[trigger] line_state(x0, y0, x1, y1, k).0 == x1 && line_state(x0, y0, x1, y1, k).1 == y1 && forall|q: nat|
                q < k ==> !(#[trigger] line_state(x0, y0, x1, y1, q).0 == x1 && line_state(x0, y0, x1, y1, q).1 == y1),
    decreases m,
{
    if exists|q: nat| q < m && #[trigger] line_state(x0, y0, x1, y1, q).0 == x1 && line_state(x0, y0, x1, y1, q).1 == y1 {
        let q = choose|q: nat| q < m && #[trigger] line_state(x0, y0, x1, y1, q).0 == x1 && line_state(x0, y0, x1, y1, q).1 == y1;
        lemma_first_arrival(x0, y0, x1, y1, q);
    } else {
        assert(line_state(x0, y0, x1, y1, m).0 == x1);
    }
}

/// A line drawn from `(x0, y0)` to `(x1, y1)` covers both of its endpoints.
pub proof fn law_line_contains_endpoints(x0: int, y0: int, x1: int, y1: int)
    ensures
        on_line(x0, y0, x1, y1, x0, y0),
        on_line(x0, y0, x1, y1, x1, y1),
{
    assert(line_state(x0, y0, x1, y1, 0).0 == x0);
    assert(iabs(x1 - x0) * (1 + 0) - iabs(y1 - y0) * (1 + 0) == iabs(x1 - x0) - iabs(y1 - y0)) by (nonlinear_arith);
    assert((if x0 < x1 { 1int } else { -1int }) * 0 == 0);
    assert((if y0 < y1 { 1int } else { -1int }) * 0 == 0);
    lemma_line_reaches(x0, y0, x1, y1, 0, 0, 0);
    let m = choose|m: nat| m >= 0 && #[trigger] line_state(x0, y0, x1, y1, m).0 == x1 && line_state(x0, y0, x1, y1, m).1 == y1;
    lemma_first_arrival(x0, y0, x1, y1, m);
}

/// The values of `xs` in ascending order.
pub fn sort_ascending(xs: &Vec<usize>) -> (s: Vec<usize>)
    ensures
        s@.to_multiset() == xs@.to_multiset(),
        s.len() == xs.len(),
        forall|i: int, j: int| 0 <= i <= j < s.len() ==> #[trigger] s@[i] <= #[trigger] s@[j],
{
    let mut s: Vec<usize> = Vec::new();
    let mut k: usize = 0;
    proof {
        assert(xs@.subrange(0, 0) =~= s@);
    }
    while k < xs.len()
        invariant
            k <= xs.len(),
            s.len() == k,
            s@.to_multiset() == xs@.subrange(0, k as int).to_multiset(),
            forall|i: int, j: int| 0 <= i <= j < s.len() ==> #[trigger] s@[i] <= #[trigger] s@[j],
        decreases xs.len() - k,
    {
        let v = xs[k];
        let mut pos: usize = 0;
        while pos < s.len() && s[pos] <= v
            invariant
                pos <= s.len(),
                forall|i: int| 0 <= i < pos ==> #[trigger] s@[i] <= v,
            decreases s.len() - pos,
        {
            pos = pos + 1;
        }
        let ghost old_s = s@;
        s.insert(pos, v);
        proof {
            assert(xs@.subrange(0, k as int + 1) =~= xs@.subrange(0, k as int).push(v));
            vstd::seq_lib::to_multiset_build(xs@.subrange(0, k as int), v);
            vstd::seq_lib::to_multiset_insert(old_s, pos as int, v);
            assert(s@ == old_s.insert(pos as int, v));
            assert forall|i: int, j: int| 0 <= i <= j < s.len() implies #[trigger] s@[i] <= #[trigger] s@[j] by {
                if pos < old_s.len() {
                    assert(!(old_s[pos as int] <= v));
                }
                if i < pos && j > pos {
                    assert(old_s[i] <= v);
                }
            }
        }
        k = k + 1;
    }
    proof {
        assert(xs@.subrange(0, xs.len() as int) =~= xs@);
    }
    s
}

/// Pixels of row `y` covered by a span: for each complete pair
/// `(xs[2k], xs[2k + 1])`, the columns from the first to the second inclusive.
pub open spec fn on_spans(xs: Seq<usize>, y: int, px: int, py: int) -> bool {
    py == y && exists|k: int| 0 <= k && 2 * k + 1 < xs.len() && #[trigger] xs[2 * k] <= px <= xs[2 * k + 1]
}

impl<T: Copy> Canvas<T> {
    /// Fills, on row `y`, the columns from `xs[2k]` to `xs[2k + 1]` for every
    /// complete pair, clipped at the right edge; a last unpaired value is
    /// ignored.
    pub fn fill_spans(&mut self, y: usize, xs: &Vec<usize>, color: &Vec<T>)
        requires
            old(self).wf(),
            color.len() >= old(self).channels,
            y < old(self).height,
            old(self).width > 0 || xs.len() < 2,
        ensures
            final(self).wf(),
            final(self).channels == old(self).channels,
            final(self).height == old(self).height,
            final(self).width == old(self).width,
            painted(
                old(self).data@,
                final(self).data@,
                old(self).channels as int,
                old(self).height as int,
                old(self).width as int,
                color@,
                |px: int, py: int| on_spans(xs@, y as int, px, py),
            ),
    {
        let ghost c = self.channels as int;
        let ghost h = self.height as int;
        let ghost w = self.width as int;
        let ghost orig = self.data@;
        let n = xs.len() / 2;
        let mut k: usize = 0;
        proof {
            lemma_painted_same(orig, self.data@, c, h, w, color@, |px: int, py: int| false,
                |px: int, py: int| py == y && exists|q: int| 0 <= q < k && #[trigger] xs@[2 * q] <= px <= xs@[2 * q + 1]);
        }
        while k < n
            invariant
                self.wf(),
                c == self.channels,
                h == self.height,
                w == self.width,
                color.len() >= c,
                y < h,
                n == xs.len() / 2,
                w > 0 || xs.len() < 2,
                k <= n,
                painted(orig, self.data@, c, h, w, color@,
                    |px: int, py: int| py == y && exists|q: int| 0 <= q < k && #[trigger] xs@[2 * q] <= px <= xs@[2 * q + 1]),
            decreases n - k,
        {
            let a = xs[2 * k];
            let b = xs[2 * k + 1];
            let end = if b < self.width - 1 { b } else { self.width - 1 };
            let ghost before = self.data@;
            self.fill_box(a, y, end + 1, y + 1, color);
            proof {
                let s_old = |px: int, py: int| py == y && exists|q: int| 0 <= q < k && #[trigger] xs@[2 * q] <= px <= xs@[2 * q + 1];
                let s_new = |px: int, py: int| py == y && exists|q: int| 0 <= q < k + 1 && #[trigger] xs@[2 * q] <= px <= xs@[2 * q + 1];
                let s_box = |px: int, py: int| in_box(a as int, y as int, end + 1, y + 1, px, py);
                lemma_painted_compose(orig, before, self.data@, c, h, w, color@, s_old, s_box);
                assert forall|px: int, py: int| 0 <= px < w && 0 <= py < h implies
                    (#[trigger] s_old(px, py) || s_box(px, py)) == s_new(px, py) by {
                    if s_box(px, py) {
                        assert(xs@[2 * (k as int)] <= px <= xs@[2 * (k as int) + 1]);
                    }
                    if s_new(px, py) {
                        let q = choose|q: int| 0 <= q < k + 1 && #[trigger] xs@[2 * q] <= px <= xs@[2 * q + 1];
                        if q < k {
                            assert(s_old(px, py));
                        }
                    }
                }
                lemma_painted_same(orig, self.data@, c, h, w, color@, |px: int, py: int| s_old(px, py) || s_box(px, py), s_new);
            }
            k = k + 1;
        }
        proof {
            assert forall|px: int, py: int| 0 <= px < w && 0 <= py < h implies
                (py == y && exists|q: int| 0 <= q < k && #[trigger] xs@[2 * q] <= px <= xs@[2 * q + 1]) == #[trigger] on_spans(xs@, y as int, px, py) by {
                if on_spans(xs@, y as int, px, py) {
                    let q = choose|q: int| 0 <= q && 2 * q + 1 < xs.len() && #[trigger] xs@[2 * q] <= px <= xs@[2 * q + 1];
                    assert(q < k);
                }
            }
            lemma_painted_same(orig, self.data@, c, h, w, color@,
                |px: int, py: int| py == y && exists|q: int| 0 <= q < k && #[trigger] xs@[2 * q] <= px <= xs@[2 * q + 1],
                |px: int, py: int| on_spans(xs@, y as int, px, py));
        }
    }
}

/// A rectangle outline passes through all four corners of the rectangle.
pub proof fn law_rectangle_corners(rx: int, ry: int, rw: int, rh: int)
    ensures
        rect_outline(rx, ry, rw, rh, rx, ry),
        rect_outline(rx, ry, rw, rh, rx + rw, ry),
        rect_outline(rx, ry, rw, rh, rx + rw, ry + rh),
        rect_outline(rx, ry, rw, rh, rx, ry + rh),
{
    law_line_contains_endpoints(rx, ry, rx + rw, ry);
    law_line_contains_endpoints(rx + rw, ry + rh, rx, ry + rh);
}

/// A circle drawn around `(xc, yc)` with radius `r` passes through the four
/// points at distance `r` straight above, below, left and right of its centre.
pub proof fn law_circle_extremes(xc: int, yc: int, r: int)
    ensures
        on_circle(xc, yc, r, xc, yc - r),
        on_circle(xc, yc, r, xc, yc + r),
        on_circle(xc, yc, r, xc - r, yc),
        on_circle(xc, yc, r, xc + r, yc),
{
    let s0 = circle_state(r, 0);
    assert(s0.0 == 0 && s0.1 == r);
    assert(sym8(xc, yc, s0.0, s0.1, xc, yc - r));
    assert(sym8(xc, yc, s0.0, s0.1, xc, yc + r));
    assert(sym8(xc, yc, s0.0, s0.1, xc - r, yc));
    assert(sym8(xc, yc, s0.0, s0.1, xc + r, yc));
}

proof fn lemma_circle_x_is_step(r: int, k: nat)
    ensures
        circle_state(r, k).0 == k,
    decreases k,
{
    if k > 0 {
        lemma_circle_x_is_step(r, (k - 1) as nat);
    }
}

/// A circle marker is an outline: for a size of two or more its centre is
/// left unpainted, while the filled marker paints it, and the outline passes
/// through the four points half the size straight above, below, left and
/// right of the centre.
pub proof fn law_circle_marker_is_outline(cx: int, cy: int, size: int)
    requires
        size >= 2,
    ensures
        !marker_pixels(cx, cy, MarkerType::Circle, size, cx, cy),
        marker_pixels(cx, cy, MarkerType::Filled, size, cx, cy),
        marker_pixels(cx, cy, MarkerType::Circle, size, cx + size / 2, cy),
        marker_pixels(cx, cy, MarkerType::Circle, size, cx - size / 2, cy),
        marker_pixels(cx, cy, MarkerType::Circle, size, cx, cy + size / 2),
        marker_pixels(cx, cy, MarkerType::Circle, size, cx, cy - size / 2),
{
    let r = size / 2;
    assert(r >= 1);
    if on_circle(cx, cy, r, cx, cy) {
        let k = choose|k: nat|
            sym8(cx, cy, #[trigger] circle_state(r, k).0, circle_state(r, k).1, cx, cy) && forall|j: nat|
                j < k ==> #[trigger] circle_state(r, j).1 >= circle_state(r, j).0;
        let st = circle_state(r, k);
        assert(st.0 == 0 && st.1 == 0);
        lemma_circle_x_is_step(r, k);
        assert(k == 0);
        assert(st.1 == r);
    }
    assert(in_disc(cx, cy, r, cx, cy)) by (nonlinear_arith)
        requires
            r >= 1,
    ;
    law_circle_extremes(cx, cy, r);
}

/// `(px, py)` falls in the 5 x 7 cell grid of character `i` of `text`, whose
/// left edge is `6 * s * i` right of `ox`, on a set bit of its glyph: the
/// column and row are read off by dividing the offsets by `s`.
pub open spec fn char_covers(font: [[u8; 5]; 128], text: Seq<u8>, ox: int, oy: int, s: int, i: int, px: int, py: int) -> bool {
    let dx = px - ox - 6 * s * i;
    let dy = py - oy;
    let g = if text[i] < 127 { text[i] as int } else { 127int };
    &&& 0 <= dx < 5 * s
    &&& 0 <= dy < 7 * s
    &&& glyph_bit(font[g][dx / s], dy / s)
}

proof fn lemma_div_cell(d: int, s: int, c: int)
    requires
        s > 0,
        c * s <= d < c * s + s,
    ensures
        d / s == c,
{
    vstd::arithmetic::div_mod::lemma_fundamental_div_mod(d, s);
    vstd::arithmetic::div_mod::lemma_mod_bound(d, s);
    let q = d / s;
    let m = d % s;
    assert(q == c) by (nonlinear_arith)
        requires
            s > 0,
            d == s * q + m,
            0 <= m < s,
            c * s <= d < c * s + s,
    ;
}

proof fn lemma_div_range(d: int, s: int, k: int)
    requires
        s > 0,
        0 <= d < k * s,
    ensures
        0 <= d / s < k,
        (d / s) * s <= d < (d / s) * s + s,
{
    vstd::arithmetic::div_mod::lemma_fundamental_div_mod(d, s);
    vstd::arithmetic::div_mod::lemma_mod_bound(d, s);
    let q = d / s;
    let m = d % s;
    assert(0 <= q < k && q * s <= d < q * s + s) by (nonlinear_arith)
        requires
            s > 0,
            d == s * q + m,
            0 <= m < s,
            0 <= d < k * s,
    ;
}

/// Text is laid out character by character: character `i` occupies the cell
/// whose left edge is `6 * s * i` right of the origin, so a pixel is painted
/// exactly when it falls on a set glyph bit of the character whose cell it
/// lies in.
pub proof fn law_text_cells(font: [[u8; 5]; 128], text: Seq<u8>, ox: int, oy: int, s: int, px: int, py: int)
    requires
        s >= 1,
    ensures
        text_pixels(font, text, ox, oy, s, px, py) <==> exists|i: int|
            0 <= i < text.len() && #[trigger] char_covers(font, text, ox, oy, s, i, px, py),
{
    let n = text.len() as int;
    if text_pixels(font, text, ox, oy, s, px, py) {
        let (i, c, r) = choose|i2: int, c2: int, r2: int|
            0 <= i2 < text.len() && 0 <= c2 < 5 && 0 <= r2 < 7 && before3(i2, c2, r2, n, 0, 0) && #[trigger] text_block(
                font,
                text,
                ox,
                oy,
                s,
                i2,
                c2,
                r2,
                px,
                py,
            );
        let dx = px - ox - 6 * s * i;
        let dy = py - oy;
        lemma_div_cell(dx, s, c);
        lemma_div_cell(dy, s, r);
        assert(0 <= dx < 5 * s) by (nonlinear_arith)
            requires
                c * s <= dx < c * s + s,
                0 <= c < 5,
                s >= 1,
        ;
        assert(0 <= dy < 7 * s) by (nonlinear_arith)
            requires
                r * s <= dy < r * s + s,
                0 <= r < 7,
                s >= 1,
        ;
        assert(char_covers(font, text, ox, oy, s, i, px, py));
    }
    if exists|i: int| 0 <= i < text.len() && #[trigger] char_covers(font, text, ox, oy, s, i, px, py) {
        let i = choose|i: int| 0 <= i < text.len() && #[trigger] char_covers(font, text, ox, oy, s, i, px, py);
        let dx = px - ox - 6 * s * i;
        let dy = py - oy;
        lemma_div_range(dx, s, 5);
        lemma_div_range(dy, s, 7);
        let c = dx / s;
        let r = dy / s;
        assert(text_block(font, text, ox, oy, s, i, c, r, px, py));
        assert(before3(i, c, r, n, 0, 0));
    }
}

} // verus!
