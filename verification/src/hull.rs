//! Andrew's monotone-chain convex hull on integer points.
use vstd::prelude::*;
use crate::types::Point;
use crate::geometry::{
    COORD_LIMIT, ahead, ahead_or_eq, coords_bounded, cross, lex_le, lex_lt, point_bounded, spread_bounded, lemma_chain_left, lemma_new_edge_ahead,
    lemma_new_edge_behind, orientation, sorted_dir, lemma_cross_translate,
};

verus! {

/// `c` takes its points from the first `k` points of `s` in order (`idx`
/// gives their positions), turns strictly left at every inner point, and
/// every one of the first `k` points lies left of or on each of its edges.
pub open spec fn chain_core(s: Seq<Point<usize>>, k: int, c: Seq<Point<usize>>, idx: Seq<int>) -> bool {
    &&& 1 <= k <= s.len()
    &&& idx.len() == c.len()
    &&& forall|i: int| 0 <= i < c.len() ==> 0 <= #[trigger] idx[i] < k && c[i] == s[idx[i]]
    &&& forall|i: int, j: int| 0 <= i < j < c.len() ==> #[trigger] idx[i] < #[trigger] idx[j]
    &&& forall|i: int| 0 <= i < c.len() - 2 ==> #[trigger] cross(c[i], c[i + 1], c[i + 2]) > 0
    &&& forall|j: int, i: int|
        0 <= j < k && 0 <= i < c.len() - 1 ==> #[trigger] cross(c[i], c[i + 1], s[j]) >= 0
}

/// `c` is the monotone chain of the first `k` points of `s`: a chain as above
/// that starts at `s[0]` and ends at `s[k - 1]`.
pub open spec fn chain_inv(s: Seq<Point<usize>>, k: int, c: Seq<Point<usize>>, idx: Seq<int>) -> bool {
    &&& chain_core(s, k, c, idx)
    &&& c.len() >= 1
    &&& idx[0] == 0
    &&& idx[c.len() - 1] == k - 1
}

/// Positions along the chain follow the walking order.
proof fn lemma_chain_order(s: Seq<Point<usize>>, k: int, c: Seq<Point<usize>>, idx: Seq<int>, asc: bool, i: int, j: int)
    requires
        chain_core(s, k, c, idx),
        sorted_dir(s, asc),
        0 <= i < j < c.len(),
    ensures
        ahead_or_eq(c[i], c[j], asc),
{
    assert(idx[i] < idx[j]);
    assert(ahead_or_eq(s[idx[i]], s[idx[j]], asc));
}

/// Consecutive chain points are distinct whenever they take part in a turn.
proof fn lemma_chain_distinct(s: Seq<Point<usize>>, k: int, c: Seq<Point<usize>>, idx: Seq<int>, asc: bool, i: int)
    requires
        chain_core(s, k, c, idx),
        sorted_dir(s, asc),
        0 <= i < c.len() - 1,
        c.len() >= 3,
    ensures
        ahead(c[i], c[i + 1], asc),
{
    lemma_chain_order(s, k, c, idx, asc, i, i + 1);
    if c[i] == c[i + 1] {
        if i + 2 < c.len() {
            assert(cross(c[i], c[i + 1], c[i + 2]) > 0);
        } else {
            let h = i - 1;
            assert(cross(c[h], c[h + 1], c[h + 2]) > 0);
            assert(c[h + 1] == c[i] && c[h + 2] == c[i + 1]);
            assert(cross(c[h], c[i], c[i + 1]) == 0) by (nonlinear_arith)
                requires
                    c[i] == c[i + 1],
            ;
        }
    }
}

/// Along a chain with at least one turn, every point lies strictly ahead of
/// the points before it.
proof fn lemma_chain_strict(s: Seq<Point<usize>>, k: int, c: Seq<Point<usize>>, idx: Seq<int>, asc: bool, i: int, j: int)
    requires
        chain_core(s, k, c, idx),
        sorted_dir(s, asc),
        c.len() >= 3,
        0 <= i < j < c.len(),
    ensures
        ahead(c[i], c[j], asc),
{
    lemma_chain_distinct(s, k, c, idx, asc, i);
    if i + 1 < j {
        lemma_chain_order(s, k, c, idx, asc, i + 1, j);
    }
}

/// A new point strictly left of the last edge is strictly left of every edge.
proof fn lemma_left_of_all(s: Seq<Point<usize>>, k: int, c: Seq<Point<usize>>, idx: Seq<int>, asc: bool, p: Point<usize>, i: int)
    requires
        chain_core(s, k, c, idx),
        sorted_dir(s, asc),
        c.len() >= 2,
        0 <= i < c.len() - 1,
        ahead_or_eq(c[c.len() - 1], p, asc),
        cross(c[c.len() - 2], c[c.len() - 1], p) > 0,
    ensures
        cross(c[i], c[i + 1], p) > 0,
    decreases c.len() - i,
{
    if i < c.len() - 2 {
        lemma_left_of_all(s, k, c, idx, asc, p, i + 1);
        lemma_chain_distinct(s, k, c, idx, asc, i);
        lemma_chain_distinct(s, k, c, idx, asc, i + 1);
        if i + 2 < c.len() - 1 {
            lemma_chain_order(s, k, c, idx, asc, i + 2, c.len() - 1);
        }
        assert(ahead_or_eq(c[i + 2], p, asc));
        assert(cross(c[i], c[i + 1], c[i + 2]) > 0);
        lemma_chain_left(c[i], c[i + 1], c[i + 2], p, asc);
    }
}

/// Appending the next point after the pops keeps the chain invariant.
proof fn lemma_chain_push(
    s: Seq<Point<usize>>,
    k: int,
    big: Seq<Point<usize>>,
    big_idx: Seq<int>,
    m: int,
    asc: bool,
)
    requires
        chain_inv(s, k, big, big_idx),
        sorted_dir(s, asc),
        k < s.len(),
        0 <= m < big.len(),
        m >= 1 ==> cross(big[m - 1], big[m], s[k]) > 0,
        m + 1 < big.len() ==> cross(big[m], big[m + 1], s[k]) <= 0,
    ensures
        chain_inv(s, k + 1, big.subrange(0, m + 1).push(s[k]), big_idx.subrange(0, m + 1).push(k)),
{
    let p = s[k];
    let c = big.subrange(0, m + 1);
    let idx = big_idx.subrange(0, m + 1);
    let nc = c.push(p);
    let nidx = idx.push(k);
    assert(chain_core(s, k, c, idx)) by {
        assert forall|j: int, i: int| 0 <= j < k && 0 <= i < c.len() - 1 implies #[trigger] cross(
            c[i],
            c[i + 1],
            s[j],
        ) >= 0 by {
            assert(cross(big[i], big[i + 1], s[j]) >= 0);
        }
        assert forall|i: int| 0 <= i < c.len() - 2 implies #[trigger] cross(c[i], c[i + 1], c[i + 2])
            > 0 by {
            assert(cross(big[i], big[i + 1], big[i + 2]) > 0);
        }
        assert forall|i: int| 0 <= i < c.len() implies 0 <= #[trigger] idx[i] < k && c[i] == s[idx[i]] by {
            assert(idx[i] == big_idx[i]);
        }
        assert forall|i: int, j: int| 0 <= i < j < c.len() implies #[trigger] idx[i] < #[trigger] idx[j] by {
            assert(idx[i] == big_idx[i] && idx[j] == big_idx[j]);
        }
    }
    // The kept prefix ends at a point that is at or behind every point read so far.
    let cm = c[m];
    assert(ahead_or_eq(cm, p, asc)) by {
        assert(idx[m] < k);
        assert(ahead_or_eq(s[idx[m]], s[k], asc));
    }
    if m >= 1 {
        lemma_chain_order(s, k, c, idx, asc, m - 1, m);
        if c[m - 1] == c[m] {
            assert(cross(c[m - 1], c[m], p) == 0) by (nonlinear_arith)
                requires
                    c[m - 1] == c[m],
            ;
        }
        if cm == p {
            assert(cross(c[m - 1], c[m], p) == 0) by (nonlinear_arith)
                requires
                    c[m] == p,
            ;
        }
    }
    // p is left of (or on) all kept edges
    assert forall|i: int| 0 <= i < nc.len() - 1 implies #[trigger] cross(nc[i], nc[i + 1], s[k]) >= 0 by {
        if i < m {
            lemma_left_of_all(s, k, c, idx, asc, p, i);
        } else {
            assert(nc[i + 1] == p);
            assert(cross(nc[i], p, p) == 0) by (nonlinear_arith);
        }
    }
    // every earlier point is left of (or on) the new edge
    assert forall|j: int| 0 <= j < k implies #[trigger] cross(nc[m], nc[m + 1], s[j]) >= 0 by {
        let q = s[j];
        assert(nc[m] == cm && nc[m + 1] == p);
        assert(ahead_or_eq(q, s[k - 1], asc)) by {
            if j < k - 1 {
                assert(ahead_or_eq(s[j], s[k - 1], asc));
            }
        }
        if ahead_or_eq(cm, q, asc) {
            if m + 1 < big.len() {
                let a = big[m + 1];
                lemma_chain_order(s, k, big, big_idx, asc, m, m + 1);
                if a == cm {
                    if big.len() >= 3 {
                        lemma_chain_distinct(s, k, big, big_idx, asc, m);
                    }
                    assert(big.len() == 2);
                    assert(a == s[k - 1]);
                    assert(q == cm);
                    assert(cross(cm, p, q) == 0) by (nonlinear_arith)
                        requires
                            q == cm,
                    ;
                } else {
                    assert(cross(big[m], big[m + 1], q) >= 0);
                    lemma_new_edge_ahead(cm, a, p, q, asc);
                }
            } else {
                assert(cm == s[k - 1]);
                assert(q == cm);
                assert(cross(cm, p, q) == 0) by (nonlinear_arith)
                    requires
                        q == cm,
                ;
            }
        } else {
            if m >= 1 {
                let o = c[m - 1];
                let h = m - 1;
                assert(cross(c[h], c[h + 1], s[j]) >= 0);
                assert(c[h + 1] == cm);
                lemma_new_edge_behind(o, cm, p, q, asc);
            } else {
                assert(cm == s[0]);
                if j > 0 {
                    assert(ahead_or_eq(s[0], s[j], asc));
                }
            }
        }
    }
    assert forall|j: int, i: int| 0 <= j < k + 1 && 0 <= i < nc.len() - 1 implies #[trigger] cross(
        nc[i],
        nc[i + 1],
        s[j],
    ) >= 0 by {
        if j == k {
        } else if i == m {
        } else {
            assert(nc[i] == c[i] && nc[i + 1] == c[i + 1]);
        }
    }
    assert forall|i: int| 0 <= i < nc.len() - 2 implies #[trigger] cross(nc[i], nc[i + 1], nc[i + 2])
        > 0 by {
        if i + 2 == m + 1 {
            assert(nc[i + 2] == p);
        } else {
            assert(nc[i] == c[i] && nc[i + 1] == c[i + 1] && nc[i + 2] == c[i + 2]);
        }
    }
    assert forall|i: int| 0 <= i < nc.len() implies 0 <= #[trigger] nidx[i] < k + 1 && nc[i] == s[nidx[i]] by {
        if i < m + 1 {
            assert(nidx[i] == idx[i]);
        }
    }
    assert forall|i: int, j: int| 0 <= i < j < nc.len() implies #[trigger] nidx[i] < #[trigger] nidx[j] by {
        if j < m + 1 {
            assert(nidx[i] == idx[i] && nidx[j] == idx[j]);
        } else {
            assert(nidx[i] == idx[i]);
        }
    }
}

/// Builds the monotone chain over all of `s` (sorted in direction `asc`).
fn monotone_chain(s: &Vec<Point<usize>>, asc: bool) -> (res: (Vec<Point<usize>>, Ghost<Seq<int>>))
    requires
        s.len() >= 1,
        sorted_dir(s@, asc),
        coords_bounded(s@),
    ensures
        chain_inv(s@, s.len() as int, res.0@, res.1@),
{
    let n = s.len();
    let mut c: Vec<Point<usize>> = Vec::new();
    c.push(s[0]);
    let ghost mut idx: Seq<int> = seq![0int];
    assert(chain_inv(s@, 1, c@, idx)) by {
        assert(cross(c@[0], c@[0], s@[0]) == 0) by (nonlinear_arith);
    }
    let mut k: usize = 1;
    while k < n
        invariant
            1 <= k <= n,
            n == s.len(),
            sorted_dir(s@, asc),
            coords_bounded(s@),
            chain_inv(s@, k as int, c@, idx),
        decreases n - k,
    {
        let p = s[k];
        let ghost big = c@;
        let ghost big_idx = idx;
        assert(point_bounded(s@[k as int]));
        loop
            invariant
                1 <= c.len() <= big.len(),
                c@ == big.subrange(0, c.len() as int),
                idx == big_idx.subrange(0, c.len() as int),
                chain_inv(s@, k as int, big, big_idx),
                coords_bounded(s@),
                k < n,
                n == s.len(),
                p == s@[k as int],
                point_bounded(p),
                c.len() < big.len() ==> cross(big[c.len() - 1], big[c.len() as int], p) <= 0,
            ensures
                1 <= c.len() <= big.len(),
                c@ == big.subrange(0, c.len() as int),
                idx == big_idx.subrange(0, c.len() as int),
                c.len() < big.len() ==> cross(big[c.len() - 1], big[c.len() as int], p) <= 0,
                c.len() >= 2 ==> cross(big[c.len() - 2], big[c.len() - 1], p) > 0,
            decreases c.len(),
        {
            if c.len() < 2 {
                break;
            }
            let len = c.len();
            proof {
                let i1 = big_idx[len - 2];
                let i2 = big_idx[len - 1];
                assert(big[len - 2] == s@[i1] && big[len - 1] == s@[i2]);
                assert(c@[len - 2] == big[len - 2] && c@[len - 1] == big[len - 1]);
                assert(point_bounded(s@[i1]));
                assert(point_bounded(s@[i2]));
                assert(spread_bounded(s@[i2], s@[i1]));
                assert(spread_bounded(s@[k as int], s@[i1]));
            }
            let turn = orientation(&c[len - 2], &c[len - 1], &p);
            if turn > 0 {
                break;
            }
            c.pop();
            proof {
                idx = idx.drop_last();
            }
        }
        let ghost m = c.len() - 1;
        c.push(p);
        proof {
            lemma_chain_push(s@, k as int, big, big_idx, m, asc);
            idx = idx.push(k as int);
        }
        k = k + 1;
    }
    (c, Ghost(idx))
}


/// Copies the points of `pts` into a new vector.
pub fn copy_points(pts: &Vec<Point<usize>>) -> (out: Vec<Point<usize>>)
    ensures
        out@ == pts@,
{
    let mut out: Vec<Point<usize>> = Vec::new();
    let mut i: usize = 0;
    while i < pts.len()
        invariant
            i <= pts.len(),
            out@ == pts@.subrange(0, i as int),
        decreases pts.len() - i,
    {
        out.push(pts[i]);
        i = i + 1;
    }
    out
}

fn lex_le_exec(a: &Point<usize>, b: &Point<usize>) -> (r: bool)
    ensures
        r == lex_le(*a, *b),
{
    a.x < b.x || (a.x == b.x && a.y <= b.y)
}

/// Sorts points lexicographically by `x`, then `y`.
pub fn sort_points(pts: &Vec<Point<usize>>) -> (s: Vec<Point<usize>>)
    ensures
        s.len() == pts.len(),
        sorted_dir(s@, true),
        forall|q: Point<usize>| s@.contains(q) <==> pts@.contains(q),
{
    let mut s: Vec<Point<usize>> = Vec::new();
    let mut k: usize = 0;
    while k < pts.len()
        invariant
            k <= pts.len(),
            s.len() == k,
            sorted_dir(s@, true),
            forall|q: Point<usize>| s@.contains(q) <==> pts@.subrange(0, k as int).contains(q),
        decreases pts.len() - k,
    {
        let p = pts[k];
        let mut pos: usize = 0;
        while pos < s.len() && lex_le_exec(&s[pos], &p)
            invariant
                pos <= s.len(),
                forall|i: int| 0 <= i < pos ==> lex_le(#[trigger] s@[i], p),
            decreases s.len() - pos,
        {
            pos = pos + 1;
        }
        let ghost old_s = s@;
        s.insert(pos, p);
        proof {
            let ns = s@;
            assert(ns == old_s.insert(pos as int, p));
            assert forall|i: int, j: int| 0 <= i < j < ns.len() implies ahead_or_eq(
                #[trigger] ns[i],
                #[trigger] ns[j],
                true,
            ) by {
                if j < pos {
                    assert(ns[i] == old_s[i] && ns[j] == old_s[j]);
                } else if j == pos {
                    assert(ns[i] == old_s[i]);
                    assert(lex_le(old_s[i], p));
                } else if i < pos {
                    assert(ns[i] == old_s[i] && ns[j] == old_s[j - 1]);
                    assert(lex_le(old_s[i], p));
                    assert(!lex_le(old_s[pos as int], p));
                    if j - 1 > pos {
                        assert(ahead_or_eq(old_s[pos as int], old_s[j - 1], true));
                    }
                } else if i == pos {
                    assert(ns[j] == old_s[j - 1]);
                    assert(!lex_le(old_s[pos as int], p));
                    if j - 1 > pos {
                        assert(ahead_or_eq(old_s[pos as int], old_s[j - 1], true));
                    }
                } else {
                    assert(ns[i] == old_s[i - 1] && ns[j] == old_s[j - 1]);
                }
            }
            let pre = pts@.subrange(0, k as int);
            let npre = pts@.subrange(0, k as int + 1);
            assert forall|q: Point<usize>| ns.contains(q) <==> npre.contains(q) by {
                if ns.contains(q) {
                    let i = choose|i: int| 0 <= i < ns.len() && ns[i] == q;
                    if i < pos {
                        assert(old_s[i] == q);
                        assert(old_s.contains(q));
                        let t = choose|t: int| 0 <= t < pre.len() && pre[t] == q;
                        assert(npre[t] == q);
                    } else if i == pos {
                        assert(npre[k as int] == q);
                    } else {
                        assert(old_s[i - 1] == q);
                        assert(old_s.contains(q));
                        let t = choose|t: int| 0 <= t < pre.len() && pre[t] == q;
                        assert(npre[t] == q);
                    }
                }
                if npre.contains(q) {
                    let t = choose|t: int| 0 <= t < npre.len() && npre[t] == q;
                    if t == k {
                        assert(ns[pos as int] == q);
                    } else {
                        assert(pre[t] == q);
                        assert(pre.contains(q));
                        assert(old_s.contains(q));
                        let i = choose|i: int| 0 <= i < old_s.len() && old_s[i] == q;
                        if i < pos {
                            assert(ns[i] == q);
                        } else {
                            assert(ns[i + 1] == q);
                        }
                    }
                }
            }
        }
        k = k + 1;
    }
    assert(pts@.subrange(0, pts.len() as int) == pts@);
    s
}

/// The points of `s` in reverse order.
pub fn reverse_points(s: &Vec<Point<usize>>) -> (r: Vec<Point<usize>>)
    ensures
        r.len() == s.len(),
        forall|i: int| 0 <= i < s.len() ==> r@[i] == s@[s.len() - 1 - i],
{
    let mut r: Vec<Point<usize>> = Vec::new();
    let mut i: usize = s.len();
    while i > 0
        invariant
            i <= s.len(),
            r.len() == s.len() - i,
            forall|t: int| 0 <= t < r.len() ==> r@[t] == s@[s.len() - 1 - t],
        decreases i,
    {
        i = i - 1;
        r.push(s[i]);
    }
    r
}

/// Index of the vertex after `i` on a closed polygon with `n` vertices.
pub open spec fn cyc_next(i: int, n: int) -> int {
    if i + 1 < n { i + 1 } else { 0 }
}

/// Index of the vertex before `i` on a closed polygon with `n` vertices.
pub open spec fn cyc_prev(i: int, n: int) -> int {
    if i > 0 { i - 1 } else { n - 1 }
}

/// `q` lies left of or on the `i`-th edge of the closed polygon `h`.
pub open spec fn left_of_edge(h: Seq<Point<usize>>, i: int, q: Point<usize>) -> bool {
    cross(h[i], h[cyc_next(i, h.len() as int)], q) >= 0
}

/// The polygon `h` turns strictly left at vertex `v`.
pub open spec fn strict_turn(h: Seq<Point<usize>>, v: int) -> bool {
    cross(h[cyc_prev(v, h.len() as int)], h[v], h[cyc_next(v, h.len() as int)]) > 0
}

/// `h` is the convex hull of `pts` as the monotone chain reports it: a closed
/// polygon of input points, counter-clockwise from the lexicographically
/// smallest point through the largest one (at position `a`), turning strictly
/// left at every other vertex, with every input point left of or on every edge;
/// its vertices strictly increase lexicographically up to position `a` and
/// strictly decrease after it, unless all points coincide.
pub open spec fn is_hull_with_split(h: Seq<Point<usize>>, pts: Seq<Point<usize>>, a: int) -> bool {
    &&& h.len() >= 2
    &&& 0 < a < h.len()
    &&& forall|i: int| 0 <= i < h.len() ==> pts.contains(#[trigger] h[i])
    &&& forall|q: Point<usize>| pts.contains(q) ==> lex_le(h[0], q) && lex_le(q, h[a])
    &&& forall|i: int, q: Point<usize>|
        0 <= i < h.len() && pts.contains(q) ==> #[trigger] left_of_edge(h, i, q)
    &&& forall|v: int| 0 < v < h.len() && v != a ==> #[trigger] strict_turn(h, v)
    &&& h[0] != h[a] ==> forall|i: int, j: int| #![trigger h[i], h[j]] 0 <= i < j <= a ==> lex_lt(h[i], h[j])
    &&& h[0] != h[a] ==> forall|i: int, j: int|
        #![trigger h[i], h[j]]
        a <= i < j < h.len() ==> lex_lt(h[j], h[i])
}

pub open spec fn is_hull(h: Seq<Point<usize>>, pts: Seq<Point<usize>>) -> bool {
    exists|a: int| is_hull_with_split(h, pts, a)
}


/// The lower chain of the sorted points followed by the upper chain of the
/// same points in reverse order, each without its last point, is the hull.
proof fn lemma_hull_assembly(
    pts: Seq<Point<usize>>,
    s: Seq<Point<usize>>,
    r: Seq<Point<usize>>,
    l: Seq<Point<usize>>,
    li: Seq<int>,
    u: Seq<Point<usize>>,
    ui: Seq<int>,
)
    requires
        s.len() >= 2,
        sorted_dir(s, true),
        forall|q: Point<usize>| s.contains(q) <==> pts.contains(q),
        r.len() == s.len(),
        forall|i: int| 0 <= i < s.len() ==> r[i] == s[s.len() - 1 - i],
        chain_inv(s, s.len() as int, l, li),
        chain_inv(r, r.len() as int, u, ui),
    ensures
        l.len() >= 2,
        u.len() >= 2,
        is_hull_with_split(
            l.subrange(0, l.len() - 1) + u.subrange(0, u.len() - 1),
            pts,
            l.len() - 1,
        ),
{
    let n = s.len() as int;
    let a = l.len() - 1;
    let b = u.len() - 1;
    let h = l.subrange(0, a) + u.subrange(0, b);
    assert(l.len() >= 2) by {
        if l.len() == 1 {
            assert(li[0] == 0 && li[0] == n - 1);
        }
    }
    assert(u.len() >= 2) by {
        if u.len() == 1 {
            assert(ui[0] == 0 && ui[0] == n - 1);
        }
    }
    assert(l[0] == s[0]);
    assert(l[a] == s[n - 1]);
    assert(u[0] == r[0] && r[0] == s[n - 1]);
    assert(u[b] == r[n - 1] && r[n - 1] == s[0]);
    assert(h.len() == a + b);
    assert forall|i: int| 0 <= i < h.len() implies #[trigger] h[i] == (if i < a { l[i] } else { u[i - a] }) by {
    }
    // every point of the input is some s[t] and some r[n - 1 - t]
    assert forall|q: Point<usize>| pts.contains(q) implies exists|t: int| 0 <= t < n && s[t] == q && r[n - 1 - t] == q by {
        assert(s.contains(q));
        let t = choose|t: int| 0 <= t < n && s[t] == q;
        assert(r[n - 1 - t] == s[n - 1 - (n - 1 - t)]);
    }
    assert forall|i: int| 0 <= i < h.len() implies pts.contains(#[trigger] h[i]) by {
        if i < a {
            assert(l[i] == s[li[i]]);
            assert(s.contains(s[li[i]]));
        } else {
            let t = ui[i - a];
            assert(u[i - a] == r[t]);
            assert(r[t] == s[n - 1 - t]);
            assert(s.contains(s[n - 1 - t]));
        }
    }
    assert forall|q: Point<usize>| pts.contains(q) implies lex_le(h[0], q) && lex_le(q, h[a]) by {
        let t = choose|t: int| 0 <= t < n && s[t] == q && r[n - 1 - t] == q;
        if t > 0 {
            assert(ahead_or_eq(s[0], s[t], true));
        }
        if t < n - 1 {
            assert(ahead_or_eq(s[t], s[n - 1], true));
        }
        assert(h[0] == l[0]);
        assert(h[a] == u[0]);
    }
    assert forall|i: int, q: Point<usize>| 0 <= i < h.len() && pts.contains(q) implies #[trigger] left_of_edge(h, i, q) by {
        let t = choose|t: int| 0 <= t < n && s[t] == q && r[n - 1 - t] == q;
        let nx = cyc_next(i, h.len() as int);
        if i < a {
            assert(h[i] == l[i]);
            if i + 1 < a {
                assert(h[nx] == l[i + 1]);
            } else {
                assert(h[nx] == u[0]);
                assert(h[nx] == l[i + 1]);
            }
            assert(cross(l[i], l[i + 1], s[t]) >= 0);
        } else {
            let j = i - a;
            assert(h[i] == u[j]);
            if i + 1 < h.len() {
                assert(h[nx] == u[j + 1]);
            } else {
                assert(h[nx] == l[0]);
                assert(h[nx] == u[j + 1]);
            }
            assert(cross(u[j], u[j + 1], r[n - 1 - t]) >= 0);
        }
    }
    assert forall|v: int| 0 < v < h.len() && v != a implies #[trigger] strict_turn(h, v) by {
        let pv = cyc_prev(v, h.len() as int);
        let nx = cyc_next(v, h.len() as int);
        if v < a {
            let i = v - 1;
            assert(h[pv] == l[i] && h[v] == l[i + 1]);
            if v + 1 < a {
                assert(h[nx] == l[i + 2]);
            } else {
                assert(h[nx] == u[0]);
                assert(h[nx] == l[i + 2]);
            }
            assert(cross(l[i], l[i + 1], l[i + 2]) > 0);
        } else {
            let i = v - 1 - a;
            assert(h[pv] == u[i] && h[v] == u[i + 1]);
            if v + 1 < h.len() {
                assert(h[nx] == u[i + 2]);
            } else {
                assert(h[nx] == l[0]);
                assert(h[nx] == u[i + 2]);
            }
            assert(cross(u[i], u[i + 1], u[i + 2]) > 0);
        }
    }
    if h[0] != h[a] {
        assert(h[0] == s[0] && h[a] == s[n - 1]);
        assert forall|i: int, j: int| 0 <= i < j <= a implies lex_lt(#[trigger] h[i], #[trigger] h[j]) by {
            assert(h[i] == l[i]);
            assert(h[j] == l[j]);
            if l.len() >= 3 {
                lemma_chain_strict(s, n, l, li, true, i, j);
            } else {
                assert(ahead_or_eq(s[0], s[n - 1], true));
            }
        }
        assert forall|i: int, j: int| a <= i < j < h.len() implies lex_lt(#[trigger] h[j], #[trigger] h[i]) by {
            assert(h[i] == u[i - a]);
            assert(h[j] == u[j - a]);
            lemma_chain_strict(r, n, u, ui, false, i - a, j - a);
        }
    }
}

proof fn lemma_bounded_subset(pts: Seq<Point<usize>>, s: Seq<Point<usize>>)
    requires
        coords_bounded(pts),
        forall|q: Point<usize>| s.contains(q) ==> pts.contains(q),
    ensures
        coords_bounded(s),
{
    assert forall|i: int| 0 <= i < s.len() implies point_bounded(#[trigger] s[i]) by {
        assert(s.contains(s[i]));
        let t = choose|t: int| 0 <= t < pts.len() && pts[t] == s[i];
        assert(point_bounded(pts[t]));
    }
    assert forall|i: int, j: int| 0 <= i < s.len() && 0 <= j < s.len() implies spread_bounded(
        #[trigger] s[i],
        #[trigger] s[j],
    ) by {
        assert(s.contains(s[i]));
        assert(s.contains(s[j]));
        let t = choose|t: int| 0 <= t < pts.len() && pts[t] == s[i];
        let u = choose|u: int| 0 <= u < pts.len() && pts[u] == s[j];
        assert(spread_bounded(pts[t], pts[u]));
    }
}

/// Convex hull of `pts` by Andrew's monotone chain; inputs of at most three
/// points are returned unchanged.
pub fn monotone_chain_hull(pts: &Vec<Point<usize>>) -> (hull: Vec<Point<usize>>)
    requires
        coords_bounded(pts@),
    ensures
        pts.len() <= 3 ==> hull@ == pts@,
        pts.len() > 3 ==> is_hull(hull@, pts@),
{
    if pts.len() <= 3 {
        return copy_points(pts);
    }
    let s = sort_points(pts);
    proof {
        lemma_bounded_subset(pts@, s@);
    }
    let r = reverse_points(&s);
    proof {
        assert forall|i: int, j: int| 0 <= i < j < r.len() implies ahead_or_eq(
            #[trigger] r@[i],
            #[trigger] r@[j],
            false,
        ) by {
            let n = s.len() as int;
            assert(ahead_or_eq(s@[n - 1 - j], s@[n - 1 - i], true));
        }
        assert forall|q: Point<usize>| r@.contains(q) implies s@.contains(q) by {
            let n = s.len() as int;
            let i = choose|i: int| 0 <= i < r.len() && r@[i] == q;
            assert(s@[n - 1 - i] == q);
        }
        lemma_bounded_subset(s@, r@);
    }
    let (mut lower, Ghost(li)) = monotone_chain(&s, true);
    let (upper, Ghost(ui)) = monotone_chain(&r, false);
    proof {
        lemma_hull_assembly(pts@, s@, r@, lower@, li, upper@, ui);
    }
    let ghost l = lower@;
    let ghost u = upper@;
    lower.pop();
    let mut j: usize = 0;
    let ub = upper.len() - 1;
    while j < ub
        invariant
            ub == u.len() - 1,
            upper@ == u,
            j <= ub,
            lower@ == l.subrange(0, l.len() - 1) + u.subrange(0, j as int),
        decreases ub - j,
    {
        lower.push(upper[j]);
        proof {
            assert(u.subrange(0, j as int).push(u[j as int]) == u.subrange(0, j as int + 1));
        }
        j = j + 1;
    }
    proof {
        assert(is_hull_with_split(lower@, pts@, l.len() - 1));
    }
    lower
}

/// Two collinear vectors that both point forward in the same lexicographic
/// direction have a positive dot product.
proof fn lemma_collinear_dot(ax: int, ay: int, dx: int, dy: int)
    requires
        ax * dy - ay * dx == 0,
        ((ax > 0 || (ax == 0 && ay > 0)) && (dx > 0 || (dx == 0 && dy > 0))) || ((ax < 0 || (ax == 0 && ay
            < 0)) && (dx < 0 || (dx == 0 && dy < 0))),
    ensures
        ax * dx + ay * dy > 0,
{
    if ax != 0 && dx != 0 {
        assert(ax * dx > 0) by (nonlinear_arith)
            requires
                (ax > 0 && dx > 0) || (ax < 0 && dx < 0),
        ;
        assert(ay * dy >= 0) by (nonlinear_arith)
            requires
                ax * dy == ay * dx,
                ax * dx > 0,
        ;
    } else if ax == 0 {
        assert(ay != 0);
        assert(dx == 0) by (nonlinear_arith)
            requires
                ax == 0,
                ay != 0,
                ax * dy - ay * dx == 0,
        ;
        assert(ay * dy > 0) by (nonlinear_arith)
            requires
                (ay > 0 && dy > 0) || (ay < 0 && dy < 0),
        ;
        assert(ax * dx == 0) by (nonlinear_arith)
            requires
                ax == 0,
        ;
    } else {
        assert(dx == 0);
        assert(dy != 0);
        assert(false) by (nonlinear_arith)
            requires
                dx == 0,
                dy != 0,
                ax != 0,
                ax * dy - ay * dx == 0,
        ;
    }
}

/// If `u` lies on the line `p -> v` strictly between `p` and `v` (in the
/// walking order), a point `w` strictly left of `p -> u` puts `v` strictly
/// right of `u -> w`.
proof fn lemma_beyond_is_right(p: Point<usize>, u: Point<usize>, v: Point<usize>, w: Point<usize>, asc: bool)
    requires
        ahead(p, u, asc),
        ahead(u, v, asc),
        cross(p, u, v) == 0,
        cross(p, u, w) > 0,
    ensures
        cross(u, w, v) < 0,
{
    let ax = u.x - p.x;
    let ay = u.y - p.y;
    let dx = v.x - u.x;
    let dy = v.y - u.y;
    let ex = w.x - u.x;
    let ey = w.y - u.y;
    lemma_cross_translate(p, u, v);
    lemma_cross_translate(p, u, w);
    assert(ax * dy - ay * dx == 0);
    assert(ax * ey - ay * ex > 0);
    lemma_collinear_dot(ax, ay, dx, dy);
    let ae = ax * ey - ay * ex;
    let de = dx * ey - dy * ex;
    assert(ax * de == dx * ae + ex * (ay * dx - ax * dy)) by (nonlinear_arith)
        requires
            ae == ax * ey - ay * ex,
            de == dx * ey - dy * ex,
    ;
    assert(ay * de == dy * ae + ey * (ay * dx - ax * dy)) by (nonlinear_arith)
        requires
            ae == ax * ey - ay * ex,
            de == dx * ey - dy * ex,
    ;
    assert(ax * de == dx * ae && ay * de == dy * ae) by (nonlinear_arith)
        requires
            ax * de == dx * ae + ex * (ay * dx - ax * dy),
            ay * de == dy * ae + ey * (ay * dx - ax * dy),
            ax * dy - ay * dx == 0,
    ;
    let ad = ax * dx + ay * dy;
    let dd = dx * dx + dy * dy;
    assert(ad * de == dx * (ax * de) + dy * (ay * de)) by (nonlinear_arith)
        requires
            ad == ax * dx + ay * dy,
    ;
    assert(dx * (ax * de) == dx * (dx * ae));
    assert(dy * (ay * de) == dy * (dy * ae));
    assert(dx * (dx * ae) + dy * (dy * ae) == dd * ae) by (nonlinear_arith)
        requires
            dd == dx * dx + dy * dy,
    ;
    assert(dd > 0) by (nonlinear_arith)
        requires
            dx != 0 || dy != 0,
            dd == dx * dx + dy * dy,
    ;
    assert(de > 0) by (nonlinear_arith)
        requires
            ad > 0,
            dd > 0,
            ae > 0,
            ad * de == dd * ae,
    ;
    assert(cross(u, w, v) == ex * dy - ey * dx);
}

/// `c` is a convex chain of `pts` walked in direction `asc`: it goes strictly
/// forward from the first point in walking order to the last one, through
/// points of `pts` only, turning strictly left at every inner point, with
/// every point of `pts` left of or on each of its edges.
pub open spec fn hull_chain(c: Seq<Point<usize>>, pts: Seq<Point<usize>>, asc: bool) -> bool {
    &&& c.len() >= 2
    &&& forall|i: int, j: int| #![trigger c[i], c[j]] 0 <= i < j < c.len() ==> ahead(c[i], c[j], asc)
    &&& forall|i: int| 0 <= i < c.len() ==> pts.contains(#[trigger] c[i])
    &&& forall|q: Point<usize>|
        pts.contains(q) ==> ahead_or_eq(c[0], q, asc) && ahead_or_eq(q, c[c.len() - 1], asc)
    &&& forall|i: int| 0 < i < c.len() - 1 ==> #[trigger] cross(c[i - 1], c[i], c[i + 1]) > 0
    &&& forall|i: int, q: Point<usize>|
        0 <= i < c.len() - 1 && pts.contains(q) ==> #[trigger] cross(c[i], c[i + 1], q) >= 0
}

proof fn lemma_chain_agrees(c1: Seq<Point<usize>>, c2: Seq<Point<usize>>, pts: Seq<Point<usize>>, asc: bool, k: int)
    requires
        hull_chain(c1, pts, asc),
        hull_chain(c2, pts, asc),
        0 <= k < c1.len(),
        k < c2.len(),
    ensures
        forall|i: int| 0 <= i <= k ==> c1[i] == c2[i],
    decreases k,
{
    if k == 0 {
        assert(pts.contains(c1[0]) && pts.contains(c2[0]));
        assert(ahead_or_eq(c1[0], c2[0], asc) && ahead_or_eq(c2[0], c1[0], asc));
    } else {
        lemma_chain_agrees(c1, c2, pts, asc, k - 1);
        let p = c1[k - 1];
        let u = c1[k];
        let v = c2[k];
        assert(c2[k - 1] == p);
        if u != v {
            assert(pts.contains(u) && pts.contains(v));
            let i = k - 1;
            assert(cross(c1[i], c1[i + 1], v) >= 0);
            assert(cross(c2[i], c2[i + 1], u) >= 0);
            assert(cross(p, v, u) == -cross(p, u, v)) by (nonlinear_arith);
            assert(cross(p, u, v) == 0);
            assert(ahead(c1[k - 1], c1[k], asc));
            assert(ahead(c2[k - 1], c2[k], asc));
            if ahead(u, v, asc) {
                // u is not the last point of c1, since v lies beyond it.
                if k == c1.len() - 1 {
                    assert(ahead_or_eq(v, c1[c1.len() - 1], asc));
                    assert(false);
                }
                let w = c1[k + 1];
                assert(cross(c1[k - 1], c1[k], c1[k + 1]) > 0);
                assert(cross(c1[k], c1[k + 1], v) >= 0);
                lemma_beyond_is_right(p, u, v, w, asc);
            } else {
                assert(ahead(v, u, asc)) by {
                    assert(lex_lt(u, v) || lex_lt(v, u));
                }
                assert(cross(p, v, u) == 0);
                if k == c2.len() - 1 {
                    assert(ahead_or_eq(u, c2[c2.len() - 1], asc));
                    assert(false);
                }
                let w = c2[k + 1];
                assert(cross(c2[k - 1], c2[k], c2[k + 1]) > 0);
                assert(cross(c2[k], c2[k + 1], u) >= 0);
                lemma_beyond_is_right(p, v, u, w, asc);
            }
        }
    }
}

/// A convex chain of a point set is unique.
proof fn lemma_chain_unique(c1: Seq<Point<usize>>, c2: Seq<Point<usize>>, pts: Seq<Point<usize>>, asc: bool)
    requires
        hull_chain(c1, pts, asc),
        hull_chain(c2, pts, asc),
    ensures
        c1 == c2,
{
    if c1.len() <= c2.len() {
        lemma_chain_agrees(c1, c2, pts, asc, c1.len() - 1);
        if c1.len() < c2.len() {
            let n = c1.len() as int;
            assert(ahead(c2[n - 1], c2[n], asc));
            assert(pts.contains(c2[n]));
            assert(ahead_or_eq(c2[n], c1[n - 1], asc));
            assert(false);
        }
    } else {
        lemma_chain_agrees(c2, c1, pts, asc, c2.len() - 1);
        let n = c2.len() as int;
        assert(ahead(c1[n - 1], c1[n], asc));
        assert(pts.contains(c1[n]));
        assert(ahead_or_eq(c1[n], c2[n - 1], asc));
        assert(false);
    }
    assert(c1 =~= c2);
}

proof fn lemma_lower_chain(h: Seq<Point<usize>>, pts: Seq<Point<usize>>, a: int)
    requires
        is_hull_with_split(h, pts, a),
        h[0] != h[a],
    ensures
        hull_chain(h.subrange(0, a + 1), pts, true),
{
    let c = h.subrange(0, a + 1);
    assert forall|i: int, j: int| #![trigger c[i], c[j]] 0 <= i < j < c.len() implies ahead(c[i], c[j], true) by {
        assert(c[i] == h[i] && c[j] == h[j]);
    }
    assert forall|i: int| 0 <= i < c.len() implies pts.contains(#[trigger] c[i]) by {
        assert(c[i] == h[i]);
    }
    assert forall|i: int| 0 < i < c.len() - 1 implies #[trigger] cross(c[i - 1], c[i], c[i + 1]) > 0 by {
        assert(strict_turn(h, i));
        assert(c[i - 1] == h[i - 1] && c[i] == h[i] && c[i + 1] == h[i + 1]);
    }
    assert forall|i: int, q: Point<usize>| 0 <= i < c.len() - 1 && pts.contains(q) implies #[trigger] cross(
        c[i],
        c[i + 1],
        q,
    ) >= 0 by {
        assert(left_of_edge(h, i, q));
        assert(c[i] == h[i] && c[i + 1] == h[i + 1]);
    }
}

proof fn lemma_upper_chain(h: Seq<Point<usize>>, pts: Seq<Point<usize>>, a: int)
    requires
        is_hull_with_split(h, pts, a),
        h[0] != h[a],
    ensures
        hull_chain(h.subrange(a, h.len() as int).push(h[0]), pts, false),
{
    let n = h.len() as int;
    let c = h.subrange(a, n).push(h[0]);
    assert(c.len() == n - a + 1);
    assert forall|k: int| 0 <= k < c.len() implies #[trigger] c[k] == (if k < n - a { h[a + k] } else { h[0] }) by {}
    // No vertex after the largest one is the smallest one.
    assert forall|i: int| a <= i < n implies #[trigger] h[i] != h[0] by {
        if i > a && h[i] == h[0] {
            let l = n - 1;
            if l > i {
                assert(lex_lt(h[l], h[i]));
                assert(pts.contains(h[l]));
            } else {
                assert(strict_turn(h, l));
                assert(cyc_next(l, n) == 0);
                assert(cross(h[l - 1], h[l], h[0]) == 0) by (nonlinear_arith)
                    requires
                        h[l] == h[0],
                ;
            }
        }
    }
    assert forall|i: int, j: int| #![trigger c[i], c[j]] 0 <= i < j < c.len() implies ahead(c[i], c[j], false) by {
        if j < n - a {
            assert(lex_lt(h[a + j], h[a + i]));
        } else {
            assert(pts.contains(h[a + i]));
            assert(h[a + i] != h[0]);
        }
    }
    assert forall|i: int| 0 <= i < c.len() implies pts.contains(#[trigger] c[i]) by {
        if i < n - a {
            assert(pts.contains(h[a + i]));
        } else {
            assert(pts.contains(h[0]));
        }
    }
    assert forall|k: int| 0 < k < c.len() - 1 implies #[trigger] cross(c[k - 1], c[k], c[k + 1]) > 0 by {
        let v = a + k;
        assert(strict_turn(h, v));
        assert(cyc_prev(v, n) == v - 1);
        if v + 1 < n {
            assert(cyc_next(v, n) == v + 1);
        } else {
            assert(cyc_next(v, n) == 0);
        }
    }
    assert forall|k: int, q: Point<usize>| 0 <= k < c.len() - 1 && pts.contains(q) implies #[trigger] cross(
        c[k],
        c[k + 1],
        q,
    ) >= 0 by {
        let v = a + k;
        assert(left_of_edge(h, v, q));
        if v + 1 < n {
            assert(cyc_next(v, n) == v + 1);
        } else {
            assert(cyc_next(v, n) == 0);
        }
    }
}

/// When the smallest and the largest point of a hull coincide, every point
/// does, and the hull is that point twice.
proof fn lemma_degenerate_hull(h: Seq<Point<usize>>, pts: Seq<Point<usize>>, a: int)
    requires
        is_hull_with_split(h, pts, a),
        h[0] == h[a],
    ensures
        h =~= seq![h[0], h[0]],
        a == 1,
{
    assert forall|i: int| 0 <= i < h.len() implies #[trigger] h[i] == h[0] by {
        assert(pts.contains(h[i]));
    }
    if h.len() > 2 {
        let v = if a == 1 { 2int } else { 1int };
        assert(strict_turn(h, v));
        let n = h.len() as int;
        assert(h[cyc_prev(v, n)] == h[0] && h[v] == h[0] && h[cyc_next(v, n)] == h[0]);
        assert(cross(h[0], h[0], h[0]) == 0) by (nonlinear_arith);
    }
}

/// The convex hull of a point set is unique: two sequences that both meet
/// `is_hull` for the same points are equal.
pub proof fn law_hull_unique(h1: Seq<Point<usize>>, h2: Seq<Point<usize>>, pts: Seq<Point<usize>>)
    requires
        is_hull(h1, pts),
        is_hull(h2, pts),
    ensures
        h1 == h2,
{
    let a1 = choose|a: int| is_hull_with_split(h1, pts, a);
    let a2 = choose|a: int| is_hull_with_split(h2, pts, a);
    assert(pts.contains(h1[0]) && pts.contains(h2[0]) && pts.contains(h1[a1]) && pts.contains(h2[a2]));
    assert(h1[0] == h2[0]);
    assert(h1[a1] == h2[a2]);
    if h1[0] == h1[a1] {
        lemma_degenerate_hull(h1, pts, a1);
        lemma_degenerate_hull(h2, pts, a2);
    } else {
        lemma_lower_chain(h1, pts, a1);
        lemma_lower_chain(h2, pts, a2);
        lemma_chain_unique(h1.subrange(0, a1 + 1), h2.subrange(0, a2 + 1), pts, true);
        assert(a1 == a2);
        lemma_upper_chain(h1, pts, a1);
        lemma_upper_chain(h2, pts, a2);
        let u1 = h1.subrange(a1, h1.len() as int).push(h1[0]);
        let u2 = h2.subrange(a2, h2.len() as int).push(h2[0]);
        lemma_chain_unique(u1, u2, pts, false);
        assert(u1.len() == u2.len());
        assert forall|i: int| 0 <= i < h1.len() implies #[trigger] h1[i] == h2[i] by {
            if i <= a1 {
                assert(h1.subrange(0, a1 + 1)[i] == h2.subrange(0, a2 + 1)[i]);
            } else {
                assert(u1[i - a1] == u2[i - a1]);
            }
        }
        assert(h1 =~= h2);
    }
}

/// Taking the hull of a hull changes nothing: a hull is the only hull of its
/// own vertices.
pub proof fn law_hull_idempotent(h: Seq<Point<usize>>, pts: Seq<Point<usize>>, h2: Seq<Point<usize>>)
    requires
        is_hull(h, pts),
        is_hull(h2, h),
    ensures
        h2 == h,
{
    let a = choose|a: int| is_hull_with_split(h, pts, a);
    assert forall|q: Point<usize>| h.contains(q) implies pts.contains(q) by {
        let i = choose|i: int| 0 <= i < h.len() && h[i] == q;
        assert(pts.contains(h[i]));
    }
    assert(is_hull_with_split(h, h, a)) by {
        assert forall|i: int| 0 <= i < h.len() implies h.contains(#[trigger] h[i]) by {}
    }
    law_hull_unique(h2, h, h);
}

} // verus!
