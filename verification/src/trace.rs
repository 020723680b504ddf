//! Boundary following on binary images: the tracing step, whole traces and
//! the raster scan that starts them.
use vstd::prelude::*;
use crate::types::Point;

verus! {

/// Horizontal offset of the 8-neighbour in direction `d` (0 = east, then
/// clockwise in image coordinates: south-east, south, ...).
pub open spec fn dir_dx(d: int) -> int {
    if d == 0 || d == 1 || d == 7 {
        1
    } else if d == 2 || d == 6 {
        0
    } else {
        -1
    }
}

/// Vertical offset of the 8-neighbour in direction `d`.
pub open spec fn dir_dy(d: int) -> int {
    if d == 1 || d == 2 || d == 3 {
        1
    } else if d == 0 || d == 4 {
        0
    } else {
        -1
    }
}

/// Foreground test at `(x, y)` on a `w` x `h` row-major grid; outside the grid is background.
pub open spec fn fg_at(g: Seq<bool>, w: int, h: int, x: int, y: int) -> bool {
    0 <= x < w && 0 <= y < h && g[y * w + x]
}

/// First direction, scanning `dir`, `dir + 1`, ... (mod 8) from the `i`-th
/// candidate on, whose neighbour of `(cx, cy)` is foreground; -1 if none.
pub open spec fn first_dir(g: Seq<bool>, w: int, h: int, cx: int, cy: int, dir: int, i: int) -> int
    decreases 8 - i,
{
    if i >= 8 || i < 0 {
        -1
    } else {
        let nd = (dir + i) % 8;
        if fg_at(g, w, h, cx + dir_dx(nd), cy + dir_dy(nd)) {
            nd
        } else {
            first_dir(g, w, h, cx, cy, dir, i + 1)
        }
    }
}

/// Bound on the number of steps a single trace takes.
pub open spec fn trace_step_limit() -> int {
    10001
}

/// The points visited after `(cx, cy)` (reached at step `count`, heading
/// `dir`) by a trace that started at `(sx, sy)`: each step moves to the first
/// foreground neighbour clockwise from `dir` and turns the heading to point
/// back three directions; the trace stops when no neighbour is foreground,
/// when it returns to the start, or after the step limit.
pub open spec fn trace_rest(
    g: Seq<bool>,
    w: int,
    h: int,
    sx: int,
    sy: int,
    cx: int,
    cy: int,
    dir: int,
    count: int,
) -> Seq<(int, int)>
    decreases trace_step_limit() - count,
{
    let nd = first_dir(g, w, h, cx, cy, dir, 0);
    if nd < 0 || count < 0 || count > trace_step_limit() {
        seq![]
    } else {
        let nx = cx + dir_dx(nd);
        let ny = cy + dir_dy(nd);
        if (nx == sx && ny == sy) || count == trace_step_limit() {
            seq![(nx, ny)]
        } else {
            seq![(nx, ny)] + trace_rest(g, w, h, sx, sy, nx, ny, (nd + 5) % 8, count + 1)
        }
    }
}

/// The full trace from `(x, y)`: the start point followed by the points visited.
pub open spec fn trace(g: Seq<bool>, w: int, h: int, x: int, y: int) -> Seq<(int, int)> {
    seq![(x, y)] + trace_rest(g, w, h, x, y, x, y, 0, 0)
}

/// Integer coordinates of a sequence of points.
pub open spec fn coords(v: Seq<Point<usize>>) -> Seq<(int, int)> {
    v.map_values(|p: Point<usize>| (p.x as int, p.y as int))
}

/// Row-major positions of a sequence of coordinates.
pub open spec fn positions(t: Seq<(int, int)>, w: int) -> Set<int> {
    Set::new(|i: int| exists|k: int| 0 <= k < t.len() && #[trigger] t[k].1 * w + t[k].0 == i)
}

/// `(x, y)` is foreground and has a background 8-neighbour inside the grid.
pub open spec fn on_boundary(g: Seq<bool>, w: int, h: int, x: int, y: int) -> bool {
    exists|d: int|
        0 <= d < 8 && 0 <= x + dir_dx(d) < w && 0 <= y + dir_dy(d) < h && !#[trigger] g[(y
            + dir_dy(d)) * w + (x + dir_dx(d))]
}

/// The contours found by a raster scan of the interior from `(x, y)` on, with
/// `visited` the positions already covered by earlier traces: each foreground
/// pixel not yet covered (and, when `boundary_only`, on the boundary) starts
/// a trace; traces of at least three points are reported.
pub open spec fn scan_from(
    g: Seq<bool>,
    w: int,
    h: int,
    boundary_only: bool,
    y: int,
    x: int,
    visited: Set<int>,
) -> Seq<Seq<(int, int)>>
    decreases h - y, w - x,
{
    if y >= h - 1 || y < 0 {
        seq![]
    } else if x >= w - 1 {
        scan_from(g, w, h, boundary_only, y + 1, 1, visited)
    } else {
        let i = y * w + x;
        if !g[i] || visited.contains(i) {
            scan_from(g, w, h, boundary_only, y, x + 1, visited)
        } else if boundary_only && !on_boundary(g, w, h, x, y) {
            scan_from(g, w, h, boundary_only, y, x + 1, visited.insert(i))
        } else {
            let t = trace(g, w, h, x, y);
            let rest = scan_from(g, w, h, boundary_only, y, x + 1, visited + positions(t, w));
            if t.len() >= 3 {
                seq![t] + rest
            } else {
                rest
            }
        }
    }
}

/// All contours of the interior scan starting at row 1, column 1.
pub open spec fn scan_contours(g: Seq<bool>, w: int, h: int, boundary_only: bool) -> Seq<Seq<(int, int)>> {
    scan_from(g, w, h, boundary_only, 1, 1, Set::empty())
}

pub(crate) proof fn lemma_index_bound(x: int, y: int, w: int, h: int)
    requires
        0 <= x < w,
        0 <= y < h,
    ensures
        0 <= y * w + x < h * w,
        h * w == w * h,
{
    assert(h * w == w * h) by (nonlinear_arith);
    assert(0 <= y * w + x < h * w) by (nonlinear_arith)
        requires
            0 <= x < w,
            0 <= y < h,
    ;
}

/// Neighbour of `(cx, cy)` in direction `d`, if it lies inside the grid.
pub(crate) fn neighbour(cx: usize, cy: usize, d: usize, w: usize, h: usize) -> (r: Option<(usize, usize)>)
    requires
        d < 8,
    ensures
        r matches Some((nx, ny)) ==> nx == cx + dir_dx(d as int) && ny == cy + dir_dy(d as int)
            && nx < w && ny < h,
        r is None ==> !(0 <= cx + dir_dx(d as int) < w && 0 <= cy + dir_dy(d as int) < h),
{
    let nx: usize = if d == 0 || d == 1 || d == 7 {
        if cx >= usize::MAX - 1 {
            return None;
        }
        cx + 1
    } else if d == 2 || d == 6 {
        cx
    } else {
        if cx == 0 {
            return None;
        }
        cx - 1
    };
    let ny: usize = if d == 1 || d == 2 || d == 3 {
        if cy >= usize::MAX - 1 {
            return None;
        }
        cy + 1
    } else if d == 0 || d == 4 {
        cy
    } else {
        if cy == 0 {
            return None;
        }
        cy - 1
    };
    if nx < w && ny < h {
        Some((nx, ny))
    } else {
        None
    }
}


/// First foreground direction around `(cx, cy)` scanning clockwise from `dir`.
fn first_fg_dir(g: &Vec<bool>, w: usize, h: usize, cx: usize, cy: usize, dir: usize) -> (r: Option<usize>)
    requires
        g.len() == w * h,
        dir < 8,
    ensures
        r matches Some(d) ==> d < 8 && d as int == first_dir(g@, w as int, h as int, cx as int, cy as int, dir as int, 0),
        r is None ==> first_dir(g@, w as int, h as int, cx as int, cy as int, dir as int, 0) == -1,
{
    let mut i: usize = 0;
    while i < 8
        invariant
            i <= 8,
            dir < 8,
            g.len() == w * h,
            first_dir(g@, w as int, h as int, cx as int, cy as int, dir as int, 0) == first_dir(
                g@,
                w as int,
                h as int,
                cx as int,
                cy as int,
                dir as int,
                i as int,
            ),
        decreases 8 - i,
    {
        let nd = (dir + i) % 8;
        match neighbour(cx, cy, nd, w, h) {
            Some((nx, ny)) => {
                proof {
                    lemma_index_bound(nx as int, ny as int, w as int, h as int);
                }
                let idx = ny * w + nx;
                if g[idx] {
                    return Some(nd);
                }
            },
            None => {},
        }
        i = i + 1;
    }
    None
}

proof fn lemma_first_dir_range(g: Seq<bool>, w: int, h: int, cx: int, cy: int, dir: int, i: int)
    requires
        0 <= dir,
    ensures
        first_dir(g, w, h, cx, cy, dir, i) == -1 || (0 <= first_dir(g, w, h, cx, cy, dir, i) < 8
            && fg_at(
            g,
            w,
            h,
            cx + dir_dx(first_dir(g, w, h, cx, cy, dir, i)),
            cy + dir_dy(first_dir(g, w, h, cx, cy, dir, i)),
        )),
    decreases 8 - i,
{
    if 0 <= i < 8 {
        lemma_first_dir_range(g, w, h, cx, cy, dir, i + 1);
    }
}

proof fn lemma_positions_push(t: Seq<(int, int)>, p: (int, int), w: int)
    ensures
        positions(t.push(p), w) == positions(t, w).insert(p.1 * w + p.0),
{
    let tp = t.push(p);
    assert forall|i: int| positions(tp, w).contains(i) <==> positions(t, w).insert(p.1 * w + p.0).contains(i) by {
        if positions(tp, w).contains(i) {
            let k = choose|k: int| 0 <= k < tp.len() && #[trigger] tp[k].1 * w + tp[k].0 == i;
            if k < t.len() {
                assert(t[k] == tp[k]);
                assert(positions(t, w).contains(i));
            }
        }
        if positions(t, w).contains(i) {
            let k = choose|k: int| 0 <= k < t.len() && #[trigger] t[k].1 * w + t[k].0 == i;
            assert(tp[k] == t[k]);
            assert(positions(tp, w).contains(i));
        }
        if i == p.1 * w + p.0 {
            assert(tp[t.len() as int] == p);
            assert(positions(tp, w).contains(i));
        }
    }
    assert(positions(t.push(p), w) =~= positions(t, w).insert(p.1 * w + p.0));
}

/// Follows the boundary from `(x, y)` and marks every visited position.
fn trace_boundary(g: &Vec<bool>, w: usize, h: usize, x: usize, y: usize, visited: &mut Vec<bool>, Ghost(vis): Ghost<Set<int>>) -> (pts: Vec<Point<usize>>)
    requires
        g.len() == w * h,
        old(visited).len() == g.len(),
        x < w,
        y < h,
        forall|i: int| 0 <= i < g.len() ==> (old(visited)@[i] <==> vis.contains(i)),
    ensures
        coords(pts@) == trace(g@, w as int, h as int, x as int, y as int),
        final(visited).len() == g.len(),
        forall|i: int|
            0 <= i < g.len() ==> (final(visited)@[i] <==> (vis + positions(
                trace(g@, w as int, h as int, x as int, y as int),
                w as int,
            )).contains(i)),
{
    let ghost gw = w as int;
    let ghost gh = h as int;
    let ghost full = trace(g@, gw, gh, x as int, y as int);
    proof {
        lemma_index_bound(x as int, y as int, gw, gh);
    }
    let mut pts: Vec<Point<usize>> = Vec::new();
    pts.push(Point { x, y });
    visited.set(y * w + x, true);
    let ghost mut cur_vis = vis.insert(y * w + x);
    proof {
        assert(coords(pts@) =~= seq![(x as int, y as int)]);
        lemma_positions_push(Seq::<(int, int)>::empty(), (x as int, y as int), gw);
        assert(Seq::<(int, int)>::empty().push((x as int, y as int)) =~= seq![(x as int, y as int)]);
        assert(positions(Seq::<(int, int)>::empty(), gw) =~= Set::<int>::empty());
        assert(cur_vis =~= vis + positions(coords(pts@), gw));
    }
    let mut cx = x;
    let mut cy = y;
    let mut dir: usize = 0;
    let mut count: usize = 0;
    loop
        invariant_except_break
            full == coords(pts@) + trace_rest(g@, gw, gh, x as int, y as int, cx as int, cy as int, dir as int, count as int),
        invariant
            g.len() == w * h,
            gw == w,
            gh == h,
            visited.len() == g.len(),
            cx < w,
            cy < h,
            dir < 8,
            count <= 10001,
            full == trace(g@, gw, gh, x as int, y as int),
            cur_vis == vis + positions(coords(pts@), gw),
            forall|i: int| 0 <= i < g.len() ==> (visited@[i] <==> cur_vis.contains(i)),
        ensures
            full == coords(pts@),
            visited.len() == g.len(),
            forall|i: int| 0 <= i < g.len() ==> (visited@[i] <==> cur_vis.contains(i)),
            cur_vis == vis + positions(coords(pts@), gw),
        decreases 10001 - count,
    {
        let ghost rest = trace_rest(g@, gw, gh, x as int, y as int, cx as int, cy as int, dir as int, count as int);
        let found = first_fg_dir(g, w, h, cx, cy, dir);
        proof {
            lemma_first_dir_range(g@, gw, gh, cx as int, cy as int, dir as int, 0);
        }
        match found {
            None => {
                assert(rest =~= Seq::<(int, int)>::empty());
                assert(full =~= coords(pts@));
                break;
            },
            Some(nd) => {
                let nb = neighbour(cx, cy, nd, w, h);
                let (nx, ny) = match nb {
                    Some(v) => v,
                    None => {
                        proof {
                            assert(false);
                        }
                        return pts;
                    },
                };
                proof {
                    lemma_index_bound(nx as int, ny as int, gw, gh);
                }
                let nidx = ny * w + nx;
                let ghost old_pts = pts@;
                visited.set(nidx, true);
                pts.push(Point { x: nx, y: ny });
                proof {
                    assert(coords(pts@) =~= coords(old_pts).push((nx as int, ny as int)));
                    lemma_positions_push(coords(old_pts), (nx as int, ny as int), gw);
                    cur_vis = cur_vis.insert(nidx as int);
                    assert(cur_vis =~= vis + positions(coords(pts@), gw));
                }
                cx = nx;
                cy = ny;
                dir = (nd + 5) % 8;
                if (cx == x && cy == y) || count >= 10001 {
                    proof {
                        assert(rest =~= seq![(nx as int, ny as int)]);
                        assert(full =~= coords(pts@));
                    }
                    break;
                }
                proof {
                    let nrest = trace_rest(g@, gw, gh, x as int, y as int, nx as int, ny as int, dir as int, count as int + 1);
                    assert(rest =~= seq![(nx as int, ny as int)] + nrest);
                    assert(full =~= coords(pts@) + nrest);
                }
                count = count + 1;
            },
        }
    }
    pts
}


/// Whether `(x, y)` has a background 8-neighbour inside the grid.
fn is_boundary_pixel(g: &Vec<bool>, w: usize, h: usize, x: usize, y: usize) -> (b: bool)
    requires
        g.len() == w * h,
    ensures
        b == on_boundary(g@, w as int, h as int, x as int, y as int),
{
    let mut d: usize = 0;
    while d < 8
        invariant
            d <= 8,
            g.len() == w * h,
            forall|e: int|
                0 <= e < d ==> !(0 <= x + dir_dx(e) < w && 0 <= y + dir_dy(e) < h && !g@[(y
                    + dir_dy(e)) * w + (x + dir_dx(e))]),
        decreases 8 - d,
    {
        match neighbour(x, y, d, w, h) {
            Some((nx, ny)) => {
                proof {
                    lemma_index_bound(nx as int, ny as int, w as int, h as int);
                }
                if !g[ny * w + nx] {
                    return true;
                }
            },
            None => {},
        }
        d = d + 1;
    }
    false
}

/// The integer coordinates of each contour.
pub open spec fn contour_coords(v: Seq<Vec<Point<usize>>>) -> Seq<Seq<(int, int)>> {
    v.map_values(|c: Vec<Point<usize>>| coords(c@))
}

/// Traces the contours of the foreground of a `w` x `h` binary grid by a raster
/// scan of its interior; with `boundary_only`, only foreground pixels with a
/// background neighbour start a trace.
pub fn find_contours_in(g: &Vec<bool>, w: usize, h: usize, boundary_only: bool) -> (res: Vec<Vec<Point<usize>>>)
    requires
        g.len() == w * h,
        h >= 1,
        h > 2 ==> w >= 1,
    ensures
        contour_coords(res@) == scan_contours(g@, w as int, h as int, boundary_only),
{
    let ghost gw = w as int;
    let ghost gh = h as int;
    let ghost total = scan_contours(g@, gw, gh, boundary_only);
    let mut visited: Vec<bool> = Vec::new();
    while visited.len() < g.len()
        invariant
            visited.len() <= g.len(),
            forall|i: int| 0 <= i < visited.len() ==> !visited@[i],
        decreases g.len() - visited.len(),
    {
        visited.push(false);
    }
    let ghost mut vis: Set<int> = Set::empty();
    let mut res: Vec<Vec<Point<usize>>> = Vec::new();
    if h < 3 {
        assert(contour_coords(res@) =~= Seq::<Seq<(int, int)>>::empty());
        return res;
    }
    let mut y: usize = 1;
    while y < h - 1
        invariant
            1 <= y <= h - 1,
            h >= 3,
            w >= 1,
            g.len() == w * h,
            gw == w,
            gh == h,
            total == scan_contours(g@, gw, gh, boundary_only),
            visited.len() == g.len(),
            forall|i: int| 0 <= i < g.len() ==> (visited@[i] <==> vis.contains(i)),
            contour_coords(res@) + scan_from(g@, gw, gh, boundary_only, y as int, 1, vis) == total,
        decreases h - y,
    {
        let mut x: usize = 1;
        while x < w - 1
            invariant
                1 <= x,
                1 <= y < h - 1,
                h >= 3,
                w >= 1,
                g.len() == w * h,
                gw == w,
                gh == h,
                total == scan_contours(g@, gw, gh, boundary_only),
                visited.len() == g.len(),
                forall|i: int| 0 <= i < g.len() ==> (visited@[i] <==> vis.contains(i)),
                contour_coords(res@) + scan_from(g@, gw, gh, boundary_only, y as int, x as int, vis)
                    == total,
            decreases w - x,
        {
            proof {
                lemma_index_bound(x as int, y as int, gw, gh);
            }
            let idx = y * w + x;
            let ghost before = scan_from(g@, gw, gh, boundary_only, y as int, x as int, vis);
            if !g[idx] || visited[idx] {
                proof {
                    assert(before == scan_from(g@, gw, gh, boundary_only, y as int, x as int + 1, vis));
                }
            } else if boundary_only && !is_boundary_pixel(g, w, h, x, y) {
                visited.set(idx, true);
                proof {
                    assert(before == scan_from(g@, gw, gh, boundary_only, y as int, x as int + 1, vis.insert(idx as int)));
                    vis = vis.insert(idx as int);
                }
            } else {
                let ghost t = trace(g@, gw, gh, x as int, y as int);
                let pts = trace_boundary(g, w, h, x, y, &mut visited, Ghost(vis));
                let ghost old_res = res@;
                let ghost nvis = vis + positions(t, gw);
                let ghost rest = scan_from(g@, gw, gh, boundary_only, y as int, x as int + 1, nvis);
                if pts.len() >= 3 {
                    res.push(pts);
                    proof {
                        assert(before == seq![t] + rest);
                        assert(contour_coords(res@) =~= contour_coords(old_res).push(t));
                        assert(contour_coords(res@) + rest =~= contour_coords(old_res) + before);
                    }
                } else {
                    proof {
                        assert(before == rest);
                    }
                }
                proof {
                    vis = nvis;
                }
            }
            x = x + 1;
        }
        proof {
            assert(scan_from(g@, gw, gh, boundary_only, y as int, x as int, vis) == scan_from(
                g@,
                gw,
                gh,
                boundary_only,
                y as int + 1,
                1,
                vis,
            ));
        }
        y = y + 1;
    }
    proof {
        assert(scan_from(g@, gw, gh, boundary_only, y as int, 1, vis) == Seq::<Seq<(int, int)>>::empty());
        assert(contour_coords(res@) + Seq::<Seq<(int, int)>>::empty() =~= contour_coords(res@));
    }
    res
}

} // verus!
