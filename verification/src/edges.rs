//! Hysteresis edge linking: weak edge pixels connected to strong ones
//! through 8-neighbourhoods become edges.
use vstd::prelude::*;
use crate::trace::{dir_dx, dir_dy, lemma_index_bound, neighbour};

verus! {

/// Row-major position of `(x, y)` on a grid `w` pixels wide.
pub open spec fn gidx(w: int, x: int, y: int) -> int {
    y * w + x
}

proof fn lemma_gidx_range(w: int, h: int)
    requires
        w >= 0,
        h >= 0,
    ensures
        forall|x: int, y: int| in_grid(w, h, x, y) ==> 0 <= #[trigger] gidx(w, x, y) < w * h,
{
    assert forall|x: int, y: int| in_grid(w, h, x, y) implies 0 <= #[trigger] gidx(w, x, y) < w * h by {
        lemma_index_bound(x, y, w, h);
    }
}

/// Pixel `(x, y)` lies on the `w` x `h` grid.
pub open spec fn in_grid(w: int, h: int, x: int, y: int) -> bool {
    0 <= x < w && 0 <= y < h
}

/// Class of `(x, y)`: 2 marks a strong edge pixel, 1 a weak one.
pub open spec fn class_at(l: Seq<u8>, w: int, x: int, y: int) -> u8 {
    l[y * w + x]
}

/// `s` contains every strong pixel, and with every pixel all of its weak
/// 8-neighbours.
pub open spec fn hysteresis_closed(l: Seq<u8>, w: int, h: int, s: Set<(int, int)>) -> bool {
    &&& forall|x: int, y: int| in_grid(w, h, x, y) && class_at(l, w, x, y) == 2 ==> #[trigger] s.contains((x, y))
    &&& forall|p: (int, int), d: int|
        s.contains(p) && 0 <= d < 8 && in_grid(w, h, p.0 + dir_dx(d), p.1 + dir_dy(d)) && class_at(
            l,
            w,
            p.0 + dir_dx(d),
            p.1 + dir_dy(d),
        ) == 1 ==> #[trigger] s.contains((p.0 + dir_dx(d), p.1 + dir_dy(d)))
}

/// `(x, y)` is an edge: it belongs to every set closed under hysteresis, so
/// it is strong or reached from a strong pixel through weak ones.
pub open spec fn hysteresis_edge(l: Seq<u8>, w: int, h: int, x: int, y: int) -> bool {
    forall|s: Set<(int, int)>| #[trigger] hysteresis_closed(l, w, h, s) ==> s.contains((x, y))
}

/// Weak pixels among the first `k` not yet marked.
pub open spec fn pending(l: Seq<u8>, e: Seq<bool>, k: int) -> nat
    decreases k,
{
    if k <= 0 {
        0
    } else {
        pending(l, e, k - 1) + if l[k - 1] == 1 && !e[k - 1] { 1nat } else { 0nat }
    }
}

proof fn lemma_pending_mark(l: Seq<u8>, e: Seq<bool>, k: int, j: int)
    requires
        0 <= j < k <= e.len(),
        l[j] == 1,
        !e[j],
    ensures
        pending(l, e.update(j, true), k) + 1 == pending(l, e, k),
    decreases k,
{
    if k - 1 != j {
        lemma_pending_mark(l, e, k - 1, j);
    } else {
        lemma_pending_same(l, e, e.update(j, true), k - 1);
    }
}

proof fn lemma_pending_same(l: Seq<u8>, e: Seq<bool>, f: Seq<bool>, k: int)
    requires
        0 <= k <= e.len(),
        f.len() == e.len(),
        forall|i: int| 0 <= i < k ==> e[i] == f[i],
    ensures
        pending(l, e, k) == pending(l, f, k),
    decreases k,
{
    if k > 0 {
        lemma_pending_same(l, e, f, k - 1);
    }
}

/// Links edges by hysteresis on a `w` x `h` class map (2 strong, 1 weak, other
/// values background): the result marks exactly the pixels that belong to
/// every set containing the strong pixels and closed under adding weak
/// 8-neighbours.
pub fn hysteresis(labels: &Vec<u8>, w: usize, h: usize) -> (edges: Vec<bool>)
    requires
        labels.len() == w * h,
    ensures
        edges.len() == labels.len(),
        forall|x: int, y: int|
            in_grid(w as int, h as int, x, y) ==> #[trigger] edges@[gidx(w as int, x, y)] == hysteresis_edge(
                labels@,
                w as int,
                h as int,
                x,
                y,
            ),
{
    let ghost gw = w as int;
    let ghost gh = h as int;
    let ghost l = labels@;
    let n = labels.len();
    let mut edges: Vec<bool> = Vec::new();
    while edges.len() < n
        invariant
            edges.len() <= n,
            forall|i: int| 0 <= i < edges.len() ==> !edges@[i],
        decreases n - edges.len(),
    {
        edges.push(false);
    }
    let ghost mut f: Set<(int, int)> = Set::empty();
    let mut stack: Vec<(usize, usize)> = Vec::new();
    proof {
        lemma_gidx_range(gw, gh);
    }
    // seed with the strong pixels
    let mut y: usize = 0;
    while y < h
        invariant
            n == w * h,
            labels.len() == n,
            edges.len() == n,
            l == labels@,
            gw == w,
            gh == h,
            y <= h,
            forall|x: int, yy: int| #![trigger f.contains((x, yy))]
                in_grid(gw, gh, x, yy) ==> (edges@[gidx(gw, x, yy)] <==> f.contains((x, yy))),
            forall|p: (int, int)| #[trigger] f.contains(p) ==> in_grid(gw, gh, p.0, p.1) && class_at(l, gw, p.0, p.1) == 2 && p.1 < y,
            forall|x: int, yy: int| in_grid(gw, gh, x, yy) && yy < y && class_at(l, gw, x, yy) == 2 ==> #[trigger] f.contains((x, yy)),
            forall|t: int| 0 <= t < stack.len() ==> #[trigger] f.contains((stack@[t].0 as int, stack@[t].1 as int)),
            forall|p: (int, int)| #[trigger] f.contains(p) ==> exists|t: int| 0 <= t < stack.len() && stack@[t].0 == p.0 && stack@[t].1 == p.1,
        decreases h - y,
    {
        let mut x: usize = 0;
        while x < w
            invariant
                n == w * h,
                labels.len() == n,
                edges.len() == n,
                l == labels@,
                gw == w,
                gh == h,
                y < h,
                x <= w,
                forall|xx: int, yy: int| #![trigger f.contains((xx, yy))]
                    in_grid(gw, gh, xx, yy) ==> (edges@[gidx(gw, xx, yy)] <==> f.contains((xx, yy))),
                forall|p: (int, int)| #[trigger] f.contains(p) ==> in_grid(gw, gh, p.0, p.1) && class_at(l, gw, p.0, p.1) == 2 && (p.1 < y || (p.1 == y && p.0 < x)),
                forall|xx: int, yy: int| in_grid(gw, gh, xx, yy) && (yy < y || (yy == y && xx < x)) && class_at(l, gw, xx, yy) == 2 ==> #[trigger] f.contains((xx, yy)),
                forall|t: int| 0 <= t < stack.len() ==> #[trigger] f.contains((stack@[t].0 as int, stack@[t].1 as int)),
                forall|p: (int, int)| #[trigger] f.contains(p) ==> exists|t: int| 0 <= t < stack.len() && stack@[t].0 == p.0 && stack@[t].1 == p.1,
            decreases w - x,
        {
            proof {
                lemma_index_bound(x as int, y as int, gw, gh);
            }
            let idx = y * w + x;
            if labels[idx] == 2 {
                let ghost before = edges@;
                let ghost old_stack = stack@;
                edges.set(idx, true);
                stack.push((x, y));
                proof {
                    lemma_mark_keeps_map(before, edges@, f, gw, gh, x as int, y as int);
                    assert(stack@ == old_stack.push((x, y)));
                    let nf = f.insert((x as int, y as int));
                    assert forall|q: (int, int)| #[trigger] nf.contains(q) implies exists|t: int| 0 <= t < stack.len() && stack@[t].0 == q.0 && stack@[t].1 == q.1 by {
                        if q == (x as int, y as int) {
                            assert(stack@[stack.len() - 1].0 == q.0 && stack@[stack.len() - 1].1 == q.1);
                        } else {
                            let t = choose|t: int| 0 <= t < old_stack.len() && old_stack[t].0 == q.0 && old_stack[t].1 == q.1;
                            assert(stack@[t] == old_stack[t]);
                        }
                    }
                    assert forall|t: int| 0 <= t < stack.len() implies #[trigger] nf.contains((stack@[t].0 as int, stack@[t].1 as int)) by {
                        if t < old_stack.len() {
                            assert(stack@[t] == old_stack[t]);
                        }
                    }
                    f = nf;
                }
            }
            x = x + 1;
        }
        y = y + 1;
    }
    proof {
        assert forall|s: Set<(int, int)>| hysteresis_closed(l, gw, gh, s) implies f.subset_of(s) by {
            assert forall|p: (int, int)| f.contains(p) implies s.contains(p) by {
                assert(class_at(l, gw, p.0, p.1) == 2);
                assert(in_grid(gw, gh, p.0, p.1));
            }
        }
    }
    // link weak pixels reachable from the stack
    loop
        invariant
            n == w * h,
            labels.len() == n,
            edges.len() == n,
            l == labels@,
            gw == w,
            gh == h,
            forall|x: int, yy: int| #![trigger f.contains((x, yy))]
                in_grid(gw, gh, x, yy) ==> (edges@[gidx(gw, x, yy)] <==> f.contains((x, yy))),
            forall|p: (int, int)| #[trigger] f.contains(p) ==> in_grid(gw, gh, p.0, p.1),
            forall|x: int, yy: int| in_grid(gw, gh, x, yy) && class_at(l, gw, x, yy) == 2 ==> #[trigger] f.contains((x, yy)),
            forall|t: int| 0 <= t < stack.len() ==> #[trigger] f.contains((stack@[t].0 as int, stack@[t].1 as int)),
            forall|p: (int, int)| #[trigger] f.contains(p) ==> (exists|t: int| 0 <= t < stack.len() && stack@[t].0 == p.0 && stack@[t].1 == p.1) || closed_at(l, gw, gh, f, p),
            forall|s: Set<(int, int)>| #[trigger] hysteresis_closed(l, gw, gh, s) ==> f.subset_of(s),
        ensures
            hysteresis_closed(l, gw, gh, f),
            forall|x: int, yy: int| #![trigger f.contains((x, yy))]
                in_grid(gw, gh, x, yy) ==> (edges@[gidx(gw, x, yy)] <==> f.contains((x, yy))),
            forall|s: Set<(int, int)>| #[trigger] hysteresis_closed(l, gw, gh, s) ==> f.subset_of(s),
            edges.len() == n,
        decreases 2 * pending(l, edges@, n as int) + stack.len(),
    {
        let ghost measure0 = 2 * pending(l, edges@, n as int) + stack.len();
        let ghost old_stack = stack@;
        let top = stack.pop();
        let (px, py) = match top {
            Some(v) => v,
            None => {
                proof {
                    assert forall|p: (int, int), d: int|
                        f.contains(p) && 0 <= d < 8 && in_grid(gw, gh, p.0 + dir_dx(d), p.1 + dir_dy(d)) && class_at(
                            l,
                            gw,
                            p.0 + dir_dx(d),
                            p.1 + dir_dy(d),
                        ) == 1 implies #[trigger] f.contains((p.0 + dir_dx(d), p.1 + dir_dy(d))) by {
                        assert(closed_at(l, gw, gh, f, p));
                    }
                }
                break;
            },
        };
        let ghost p = (px as int, py as int);
        proof {
            assert(old_stack.last() == (px, py));
            assert(stack@ == old_stack.drop_last());
            assert(f.contains((old_stack[old_stack.len() - 1].0 as int, old_stack[old_stack.len() - 1].1 as int)));
            assert(f.contains(p));
            assert forall|q: (int, int)| #[trigger] f.contains(q) implies q == p || (exists|t: int| 0 <= t < stack.len() && stack@[t].0 == q.0 && stack@[t].1 == q.1) || closed_at(l, gw, gh, f, q) by {
                if !closed_at(l, gw, gh, f, q) {
                    let t = choose|t: int| 0 <= t < old_stack.len() && old_stack[t].0 == q.0 && old_stack[t].1 == q.1;
                    if t < stack.len() {
                        assert(stack@[t] == old_stack[t]);
                    }
                }
            }
            assert forall|t: int| 0 <= t < stack.len() implies #[trigger] f.contains((stack@[t].0 as int, stack@[t].1 as int)) by {
                assert(stack@[t] == old_stack[t]);
            }
        }
        let mut d: usize = 0;
        while d < 8
            invariant
                n == w * h,
                labels.len() == n,
                edges.len() == n,
                l == labels@,
                gw == w,
                gh == h,
                d <= 8,
                p == (px as int, py as int),
                f.contains(p),
                forall|x: int, yy: int| #![trigger f.contains((x, yy))]
                    in_grid(gw, gh, x, yy) ==> (edges@[gidx(gw, x, yy)] <==> f.contains((x, yy))),
                forall|q: (int, int)| #[trigger] f.contains(q) ==> in_grid(gw, gh, q.0, q.1),
                forall|x: int, yy: int| in_grid(gw, gh, x, yy) && class_at(l, gw, x, yy) == 2 ==> #[trigger] f.contains((x, yy)),
                forall|t: int| 0 <= t < stack.len() ==> #[trigger] f.contains((stack@[t].0 as int, stack@[t].1 as int)),
                forall|q: (int, int)| #[trigger] f.contains(q) ==> q == p || (exists|t: int| 0 <= t < stack.len() && stack@[t].0 == q.0 && stack@[t].1 == q.1) || closed_at(l, gw, gh, f, q),
                forall|e: int| 0 <= e < d && in_grid(gw, gh, p.0 + dir_dx(e), p.1 + dir_dy(e)) && class_at(l, gw, p.0 + dir_dx(e), p.1 + dir_dy(e)) == 1 ==> #[trigger] f.contains((p.0 + dir_dx(e), p.1 + dir_dy(e))),
                forall|s: Set<(int, int)>| #[trigger] hysteresis_closed(l, gw, gh, s) ==> f.subset_of(s),
                2 * pending(l, edges@, n as int) + stack.len() < measure0,
            decreases 8 - d,
        {
            match neighbour(px, py, d, w, h) {
                Some((nx, ny)) => {
                    proof {
                        lemma_index_bound(nx as int, ny as int, gw, gh);
                    }
                    let nidx = ny * w + nx;
                    if labels[nidx] == 1 && !edges[nidx] {
                        let ghost q = (nx as int, ny as int);
                        let ghost before = edges@;
                        let ghost old_stack2 = stack@;
                        edges.set(nidx, true);
                        stack.push((nx, ny));
                        proof {
                            lemma_pending_mark(l, before, n as int, nidx as int);
                            lemma_mark_keeps_map(before, edges@, f, gw, gh, nx as int, ny as int);
                            assert(stack@ == old_stack2.push((nx, ny)));
                            assert forall|t: int| 0 <= t < stack.len() implies #[trigger] f.insert(q).contains((stack@[t].0 as int, stack@[t].1 as int)) by {
                                if t < old_stack2.len() {
                                    assert(stack@[t] == old_stack2[t]);
                                }
                            }
                            assert forall|s: Set<(int, int)>| #[trigger] hysteresis_closed(l, gw, gh, s) implies f.insert(q).subset_of(s) by {
                                assert(f.subset_of(s));
                                assert(s.contains(p));
                                assert(s.contains((p.0 + dir_dx(d as int), p.1 + dir_dy(d as int))));
                            }
                            let nf = f.insert(q);
                            assert forall|r: (int, int)| #[trigger] nf.contains(r) implies r == p || (exists|t: int| 0 <= t < stack.len() && stack@[t].0 == r.0 && stack@[t].1 == r.1) || closed_at(l, gw, gh, nf, r) by {
                                if r == q {
                                    assert(stack@[stack.len() - 1].0 == r.0 && stack@[stack.len() - 1].1 == r.1);
                                } else if r != p {
                                    if exists|t: int| 0 <= t < old_stack2.len() && old_stack2[t].0 == r.0 && old_stack2[t].1 == r.1 {
                                        let t = choose|t: int| 0 <= t < old_stack2.len() && old_stack2[t].0 == r.0 && old_stack2[t].1 == r.1;
                                        assert(stack@[t] == old_stack2[t]);
                                    } else {
                                        assert(closed_at(l, gw, gh, f, r));
                                        lemma_closed_at_grow(l, gw, gh, f, nf, r);
                                    }
                                }
                            }
                            f = nf;
                        }
                    }
                },
                None => {},
            }
            d = d + 1;
        }
        proof {
            assert(closed_at(l, gw, gh, f, p));
        }
    }
    proof {
        assert forall|x: int, y: int| in_grid(gw, gh, x, y) implies #[trigger] edges@[gidx(gw, x, y)] == hysteresis_edge(l, gw, gh, x, y) by {
            if f.contains((x, y)) {
                assert forall|s: Set<(int, int)>| #[trigger] hysteresis_closed(l, gw, gh, s) implies s.contains((x, y)) by {
                    assert(f.subset_of(s));
                }
            } else {
                assert(!f.contains((x, y)));
            }
        }
    }
    edges
}

/// Every weak 8-neighbour of `p` belongs to `f`.
pub open spec fn closed_at(l: Seq<u8>, w: int, h: int, f: Set<(int, int)>, p: (int, int)) -> bool {
    forall|d: int|
        0 <= d < 8 && in_grid(w, h, p.0 + dir_dx(d), p.1 + dir_dy(d)) && class_at(l, w, p.0 + dir_dx(d), p.1 + dir_dy(d)) == 1
            ==> #[trigger] f.contains((p.0 + dir_dx(d), p.1 + dir_dy(d)))
}

proof fn lemma_closed_at_grow(l: Seq<u8>, w: int, h: int, f: Set<(int, int)>, g: Set<(int, int)>, p: (int, int))
    requires
        closed_at(l, w, h, f, p),
        f.subset_of(g),
    ensures
        closed_at(l, w, h, g, p),
{
    assert forall|d: int|
        0 <= d < 8 && in_grid(w, h, p.0 + dir_dx(d), p.1 + dir_dy(d)) && class_at(l, w, p.0 + dir_dx(d), p.1 + dir_dy(d)) == 1
            implies #[trigger] g.contains((p.0 + dir_dx(d), p.1 + dir_dy(d))) by {
        assert(f.contains((p.0 + dir_dx(d), p.1 + dir_dy(d))));
    }
}

proof fn lemma_index_injective(x: int, y: int, x2: int, y2: int, w: int)
    requires
        0 <= x < w,
        0 <= x2 < w,
        0 <= y,
        0 <= y2,
        y * w + x == y2 * w + x2,
    ensures
        x == x2,
        y == y2,
{
    if y < y2 {
        assert(y * w + x < y2 * w + x2) by (nonlinear_arith)
            requires
                0 <= x < w,
                0 <= x2,
                y < y2,
        ;
    } else if y2 < y {
        assert(y2 * w + x2 < y * w + x) by (nonlinear_arith)
            requires
                0 <= x2 < w,
                0 <= x,
                y2 < y,
        ;
    }
}

/// Marking pixel `(x, y)` in the edge map adds exactly that pixel to the set it represents.
proof fn lemma_mark_keeps_map(before: Seq<bool>, e: Seq<bool>, f: Set<(int, int)>, w: int, h: int, x: int, y: int)
    requires
        in_grid(w, h, x, y),
        before.len() == w * h,
        e == before.update(gidx(w, x, y), true),
        forall|xx: int, yy: int| #![trigger f.contains((xx, yy))]
            in_grid(w, h, xx, yy) ==> (before[gidx(w, xx, yy)] <==> f.contains((xx, yy))),
    ensures
        forall|xx: int, yy: int| #![trigger f.insert((x, y)).contains((xx, yy))]
            in_grid(w, h, xx, yy) ==> (e[gidx(w, xx, yy)] <==> f.insert((x, y)).contains((xx, yy))),
        forall|xx: int, yy: int| #![trigger f.contains((xx, yy))]
            in_grid(w, h, xx, yy) ==> (e[gidx(w, xx, yy)] <==> f.insert((x, y)).contains((xx, yy))),
{
    lemma_gidx_range(w, h);
    assert forall|xx: int, yy: int| in_grid(w, h, xx, yy) implies (e[gidx(w, xx, yy)] <==> #[trigger] f.insert((x, y)).contains((xx, yy))) by {
        if xx != x || yy != y {
            if gidx(w, xx, yy) == gidx(w, x, y) {
                lemma_index_injective(xx, yy, x, y, w);
            }
            assert(f.contains((xx, yy)) == f.insert((x, y)).contains((xx, yy)));
        }
    }
}

/// Strong pixels are always edges, and an edge pixel is strong or weak:
/// background pixels never become edges.
pub proof fn law_hysteresis_classes(l: Seq<u8>, w: int, h: int, x: int, y: int)
    requires
        in_grid(w, h, x, y),
    ensures
        class_at(l, w, x, y) == 2 ==> hysteresis_edge(l, w, h, x, y),
        hysteresis_edge(l, w, h, x, y) ==> class_at(l, w, x, y) == 1 || class_at(l, w, x, y) == 2,
{
    let marked = Set::new(|p: (int, int)| in_grid(w, h, p.0, p.1) && (class_at(l, w, p.0, p.1) == 1 || class_at(l, w, p.0, p.1) == 2));
    assert(hysteresis_closed(l, w, h, marked));
    if hysteresis_edge(l, w, h, x, y) {
        assert(marked.contains((x, y)));
    }
}

} // verus!
