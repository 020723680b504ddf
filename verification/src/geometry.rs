//! Orientation predicates on integer points and the facts about them that the
//! monotone-chain hull construction rests on.
use vstd::prelude::*;
use crate::types::Point;

verus! {

/// Largest distance, along either axis, between two points on which the
/// orientation test is computed exactly: the products of two such
/// distances, and their difference, fit in a signed 64-bit integer.
pub const COORD_LIMIT: usize = 0x7fff_ffff;

/// Both coordinates of `p` fit in a signed 64-bit integer.
pub open spec fn point_bounded(p: Point<usize>) -> bool {
    p.x <= i64::MAX && p.y <= i64::MAX
}

/// `p` and `q` lie at most `COORD_LIMIT` apart along either axis.
pub open spec fn spread_bounded(p: Point<usize>, q: Point<usize>) -> bool {
    -COORD_LIMIT <= p.x - q.x <= COORD_LIMIT && -COORD_LIMIT <= p.y - q.y <= COORD_LIMIT
}

/// Every point of `s` fits in signed 64-bit coordinates, and any two of its
/// points lie at most `COORD_LIMIT` apart along either axis.
pub open spec fn coords_bounded(s: Seq<Point<usize>>) -> bool {
    &&& forall|i: int| 0 <= i < s.len() ==> point_bounded(#[trigger] s[i])
    &&& forall|i: int, j: int| 0 <= i < s.len() && 0 <= j < s.len() ==> spread_bounded(#[trigger] s[i], #[trigger] s[j])
}

/// Cross product of the vectors (ux, uy) and (vx, vy).
pub open spec fn vcross(ux: int, uy: int, vx: int, vy: int) -> int {
    ux * vy - uy * vx
}

/// Orientation of `b` relative to the directed line `o -> a`: positive for a
/// counter-clockwise (left) turn, zero when collinear.
pub open spec fn cross(o: Point<usize>, a: Point<usize>, b: Point<usize>) -> int {
    vcross(a.x - o.x, a.y - o.y, b.x - o.x, b.y - o.y)
}

/// Lexicographic order on points: by `x`, then by `y`.
pub open spec fn lex_lt(a: Point<usize>, b: Point<usize>) -> bool {
    a.x < b.x || (a.x == b.x && a.y < b.y)
}

pub open spec fn lex_le(a: Point<usize>, b: Point<usize>) -> bool {
    lex_lt(a, b) || a == b
}

/// `b` comes strictly after `a` when walking in increasing (`asc`) or
/// decreasing lexicographic order.
pub open spec fn ahead(a: Point<usize>, b: Point<usize>, asc: bool) -> bool {
    if asc {
        lex_lt(a, b)
    } else {
        lex_lt(b, a)
    }
}

pub open spec fn ahead_or_eq(a: Point<usize>, b: Point<usize>, asc: bool) -> bool {
    a == b || ahead(a, b, asc)
}

/// `s` is sorted in the direction given by `asc`.
pub open spec fn sorted_dir(s: Seq<Point<usize>>, asc: bool) -> bool {
    forall|i: int, j: int| 0 <= i < j < s.len() ==> ahead_or_eq(#[trigger] s[i], #[trigger] s[j], asc)
}

/// The vector (x, y) points forward in increasing lexicographic order.
pub open spec fn vpos(x: int, y: int) -> bool {
    x > 0 || (x == 0 && y > 0)
}

pub open spec fn vnn(x: int, y: int) -> bool {
    vpos(x, y) || (x == 0 && y == 0)
}

proof fn lemma_cross_identity(ux: int, uy: int, vx: int, vy: int, wx: int, wy: int)
    ensures
        vcross(ux, uy, vx, vy) * wx + vcross(vx, vy, wx, wy) * ux + vcross(wx, wy, ux, uy) * vx
            == 0,
{
    assert((ux * vy - uy * vx) * wx + (vx * wy - vy * wx) * ux + (wx * uy - wy * ux) * vx == 0)
        by (nonlinear_arith);
}

proof fn lemma_mul_pos(a: int, b: int)
    requires
        a > 0,
        b > 0,
    ensures
        a * b > 0,
{
    assert(a * b > 0) by (nonlinear_arith)
        requires
            a > 0,
            b > 0,
    ;
}

proof fn lemma_mul_nonneg(a: int, b: int)
    requires
        a >= 0,
        b >= 0,
    ensures
        a * b >= 0,
{
    assert(a * b >= 0) by (nonlinear_arith)
        requires
            a >= 0,
            b >= 0,
    ;
}

/// Three forward vectors whose consecutive pairs turn left: the first and the
/// last turn left as well.
proof fn lemma_turn_transitive(ux: int, uy: int, vx: int, vy: int, wx: int, wy: int)
    requires
        vpos(ux, uy),
        vpos(vx, vy),
        vpos(wx, wy),
        vcross(ux, uy, vx, vy) > 0,
        vcross(vx, vy, wx, wy) > 0,
    ensures
        vcross(ux, uy, wx, wy) > 0,
{
    lemma_cross_identity(ux, uy, vx, vy, wx, wy);
    let uv = vcross(ux, uy, vx, vy);
    let vw = vcross(vx, vy, wx, wy);
    let uw = vcross(ux, uy, wx, wy);
    assert(vcross(wx, wy, ux, uy) == -uw);
    // the middle vector is never vertical
    if vx == 0 {
        assert(vy > 0);
        assert(uv == ux * vy);
        assert(vw == -(vy * wx));
        if ux <= 0 {
            assert(ux == 0);
            assert(uv == 0);
        }
        lemma_mul_pos(ux, vy);
        if wx > 0 {
            lemma_mul_pos(vy, wx);
        }
        assert(wx == 0);
        assert(vw == 0);
    }
    assert(vx > 0);
    assert(uw * vx == uv * wx + vw * ux) by (nonlinear_arith)
        requires
            uv * wx + vw * ux + (-uw) * vx == 0,
    ;
    lemma_mul_nonneg(uv, wx);
    lemma_mul_nonneg(vw, ux);
    if ux == 0 && wx == 0 {
        assert(uy > 0);
        assert(uv == -(uy * vx));
        lemma_mul_pos(uy, vx);
    }
    if ux > 0 {
        lemma_mul_pos(vw, ux);
    } else {
        lemma_mul_pos(uv, wx);
    }
    if uw <= 0 {
        assert(uw * vx <= 0) by (nonlinear_arith)
            requires
                uw <= 0,
                vx > 0,
        ;
    }
}

/// A point `d` left of a forward edge `a` and a point `b` right of it (both
/// ahead of the edge's start) leave `d` to the left of `b`.
proof fn lemma_between_right(ax: int, ay: int, bx: int, by: int, dx: int, dy: int)
    requires
        vpos(ax, ay),
        vnn(bx, by),
        vnn(dx, dy),
        vcross(ax, ay, dx, dy) >= 0,
        vcross(ax, ay, bx, by) <= 0,
    ensures
        vcross(bx, by, dx, dy) >= 0,
{
    // (b x d) a + (d x a) b + (a x b) d == 0
    lemma_cross_identity(bx, by, dx, dy, ax, ay);
    let bd = vcross(bx, by, dx, dy);
    let da = vcross(dx, dy, ax, ay);
    let ab = vcross(ax, ay, bx, by);
    assert(da == -vcross(ax, ay, dx, dy));
    assert(vcross(ax, ay, bx, by) == ab);
    if ax > 0 {
        assert(bd * ax == (-da) * bx + (-ab) * dx) by (nonlinear_arith)
            requires
                bd * ax + da * bx + ab * dx == 0,
        ;
        lemma_mul_nonneg(-da, bx);
        lemma_mul_nonneg(-ab, dx);
        if bd < 0 {
            assert(bd * ax < 0) by (nonlinear_arith)
                requires
                    bd < 0,
                    ax > 0,
            ;
        }
    } else {
        assert(ax == 0 && ay > 0);
        assert(vcross(ax, ay, dx, dy) == -(ay * dx));
        if dx > 0 {
            lemma_mul_pos(ay, dx);
        }
        assert(dx == 0);
        assert(dy >= 0);
        assert(bd == bx * dy);
        lemma_mul_nonneg(bx, dy);
    }
}

/// A point `d'` behind a forward edge `e` (on its right) and a point `b` to
/// the left of it make `b` turn left from `d'`.
proof fn lemma_behind_left(ex: int, ey: int, bx: int, by: int, dx: int, dy: int)
    requires
        vpos(ex, ey),
        vpos(bx, by),
        vnn(dx, dy),
        vcross(ex, ey, bx, by) > 0,
        vcross(ex, ey, dx, dy) <= 0,
    ensures
        vcross(dx, dy, bx, by) >= 0,
{
    // (d x b) e + (b x e) d + (e x d) b == 0
    lemma_cross_identity(dx, dy, bx, by, ex, ey);
    let db = vcross(dx, dy, bx, by);
    let be = vcross(bx, by, ex, ey);
    let ed = vcross(ex, ey, dx, dy);
    assert(be == -vcross(ex, ey, bx, by));
    if ex > 0 {
        assert(db * ex == (-be) * dx + (-ed) * bx) by (nonlinear_arith)
            requires
                db * ex + be * dx + ed * bx == 0,
        ;
        lemma_mul_nonneg(-be, dx);
        lemma_mul_nonneg(-ed, bx);
        if db < 0 {
            assert(db * ex < 0) by (nonlinear_arith)
                requires
                    db < 0,
                    ex > 0,
            ;
        }
    } else {
        assert(ex == 0 && ey > 0);
        assert(vcross(ex, ey, bx, by) == -(ey * bx));
        if bx >= 0 {
            lemma_mul_nonneg(ey, bx);
        }
        assert(bx < 0);
    }
}

proof fn lemma_cross_negated(ux: int, uy: int, vx: int, vy: int)
    ensures
        vcross(-ux, -uy, -vx, -vy) == vcross(ux, uy, vx, vy),
{
    assert(vcross(-ux, -uy, -vx, -vy) == vcross(ux, uy, vx, vy)) by (nonlinear_arith);
}

pub(crate) proof fn lemma_cross_translate(o: Point<usize>, a: Point<usize>, b: Point<usize>)
    ensures
        cross(o, a, b) == vcross(a.x - o.x, a.y - o.y, b.x - a.x, b.y - a.y),
{
    let ux = a.x - o.x;
    let uy = a.y - o.y;
    let vx = b.x - a.x;
    let vy = b.y - a.y;
    assert(vcross(ux, uy, ux + vx, uy + vy) == vcross(ux, uy, vx, vy)) by (nonlinear_arith);
}

/// Vector from `a` to `b` taken in the walking direction.
pub open spec fn dvx(a: Point<usize>, b: Point<usize>, asc: bool) -> int {
    if asc { b.x - a.x } else { a.x - b.x }
}

pub open spec fn dvy(a: Point<usize>, b: Point<usize>, asc: bool) -> int {
    if asc { b.y - a.y } else { a.y - b.y }
}

proof fn lemma_dir_vectors(a: Point<usize>, b: Point<usize>, asc: bool)
    ensures
        ahead(a, b, asc) <==> vpos(dvx(a, b, asc), dvy(a, b, asc)),
        ahead_or_eq(a, b, asc) <==> vnn(dvx(a, b, asc), dvy(a, b, asc)),
{
}

proof fn lemma_dir_cross(o: Point<usize>, a: Point<usize>, b: Point<usize>, c: Point<usize>, asc: bool)
    ensures
        vcross(dvx(o, a, asc), dvy(o, a, asc), dvx(b, c, asc), dvy(b, c, asc))
            == vcross(a.x - o.x, a.y - o.y, c.x - b.x, c.y - b.y),
{
    if !asc {
        lemma_cross_negated(a.x - o.x, a.y - o.y, c.x - b.x, c.y - b.y);
    }
}

/// Along a chain walked in direction `asc`: if `o -> a -> b` and `a -> b -> p`
/// both turn left and `p` lies ahead of `b`, then `o -> a -> p` turns left.
pub proof fn lemma_chain_left(o: Point<usize>, a: Point<usize>, b: Point<usize>, p: Point<usize>, asc: bool)
    requires
        ahead(o, a, asc),
        ahead(a, b, asc),
        ahead_or_eq(b, p, asc),
        cross(o, a, b) > 0,
        cross(a, b, p) > 0,
    ensures
        cross(o, a, p) > 0,
{
    lemma_dir_vectors(o, a, asc);
    lemma_dir_vectors(a, b, asc);
    lemma_dir_vectors(a, p, asc);
    lemma_cross_translate(o, a, b);
    lemma_cross_translate(o, a, p);
    lemma_dir_cross(o, a, a, b, asc);
    lemma_dir_cross(o, a, a, p, asc);
    lemma_dir_cross(a, b, a, p, asc);
    assert(cross(a, b, p) == vcross(b.x - a.x, b.y - a.y, p.x - a.x, p.y - a.y));
    lemma_turn_transitive(
        dvx(o, a, asc),
        dvy(o, a, asc),
        dvx(a, b, asc),
        dvy(a, b, asc),
        dvx(a, p, asc),
        dvy(a, p, asc),
    );
}

/// A point `q` ahead of `c`, left of the edge `c -> a`, and a point `p` ahead of
/// `c`, right of that edge: `q` is left of `c -> p`.
pub proof fn lemma_new_edge_ahead(c: Point<usize>, a: Point<usize>, p: Point<usize>, q: Point<usize>, asc: bool)
    requires
        ahead(c, a, asc),
        ahead_or_eq(c, p, asc),
        ahead_or_eq(c, q, asc),
        cross(c, a, q) >= 0,
        cross(c, a, p) <= 0,
    ensures
        cross(c, p, q) >= 0,
{
    lemma_dir_vectors(c, a, asc);
    lemma_dir_vectors(c, p, asc);
    lemma_dir_vectors(c, q, asc);
    lemma_dir_cross(c, a, c, q, asc);
    lemma_dir_cross(c, a, c, p, asc);
    lemma_dir_cross(c, p, c, q, asc);
    lemma_between_right(
        dvx(c, a, asc),
        dvy(c, a, asc),
        dvx(c, p, asc),
        dvy(c, p, asc),
        dvx(c, q, asc),
        dvy(c, q, asc),
    );
}

/// A point `q` behind `a`, left of the edge `o -> a`, and a point `p` ahead of
/// `a` strictly left of that edge: `q` is left of `a -> p`.
pub proof fn lemma_new_edge_behind(o: Point<usize>, a: Point<usize>, p: Point<usize>, q: Point<usize>, asc: bool)
    requires
        ahead(o, a, asc),
        ahead(a, p, asc),
        ahead_or_eq(q, a, asc),
        cross(o, a, p) > 0,
        cross(o, a, q) >= 0,
    ensures
        cross(a, p, q) >= 0,
{
    lemma_dir_vectors(o, a, asc);
    lemma_dir_vectors(a, p, asc);
    lemma_dir_vectors(q, a, asc);
    lemma_cross_translate(o, a, p);
    lemma_cross_translate(o, a, q);
    // e = a - o, b = p - a, d = a - q
    lemma_dir_cross(o, a, a, p, asc);
    lemma_dir_cross(o, a, q, a, asc);
    lemma_dir_cross(q, a, a, p, asc);
    assert(vcross(a.x - o.x, a.y - o.y, q.x - a.x, q.y - a.y) == -vcross(
        a.x - o.x,
        a.y - o.y,
        a.x - q.x,
        a.y - q.y,
    )) by (nonlinear_arith);
    assert(cross(a, p, q) == vcross(a.x - q.x, a.y - q.y, p.x - a.x, p.y - a.y)) by (nonlinear_arith);
    lemma_behind_left(
        dvx(o, a, asc),
        dvy(o, a, asc),
        dvx(a, p, asc),
        dvy(a, p, asc),
        dvx(q, a, asc),
        dvy(q, a, asc),
    );
}

/// Exact orientation test on bounded coordinates.
pub fn orientation(o: &Point<usize>, a: &Point<usize>, b: &Point<usize>) -> (r: i64)
    requires
        point_bounded(*o),
        point_bounded(*a),
        point_bounded(*b),
        spread_bounded(*a, *o),
        spread_bounded(*b, *o),
    ensures
        r == cross(*o, *a, *b),
{
    let ux = a.x as i64 - o.x as i64;
    let uy = a.y as i64 - o.y as i64;
    let vx = b.x as i64 - o.x as i64;
    let vy = b.y as i64 - o.y as i64;
    assert(-0x8000_0000 < ux < 0x8000_0000);
    proof {
        assert(-0x4000_0000_0000_0000 < ux * vy < 0x4000_0000_0000_0000) by (nonlinear_arith)
            requires
                -0x8000_0000 < ux < 0x8000_0000,
                -0x8000_0000 < vy < 0x8000_0000,
        ;
        assert(-0x4000_0000_0000_0000 < uy * vx < 0x4000_0000_0000_0000) by (nonlinear_arith)
            requires
                -0x8000_0000 < uy < 0x8000_0000,
                -0x8000_0000 < vx < 0x8000_0000,
        ;
    }
    ux * vy - uy * vx
}

} // verus!
