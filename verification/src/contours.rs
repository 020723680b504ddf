//! Contours: point lists with their hull and bounding box, and the nesting
//! hierarchy reported alongside them.
use vstd::prelude::*;
use crate::types::{Point, Rect};
use crate::geometry::coords_bounded;
use crate::hull::{copy_points, is_hull, monotone_chain_hull};

verus! {

/// A contour outline as a list of points.
#[derive(Debug, Default)]
pub struct Contour {
    pub points: Vec<Point<usize>>,
}

/// Contour retrieval modes for hierarchy-based contour detection.
#[derive(Clone, Copy, Debug, PartialEq, Eq)]
pub enum RetrievalMode {
    /// Only the outermost contours.
    External,
    /// All contours, as a flat list.
    List,
    /// All contours, organised as outer boundaries and holes.
    CComp,
    /// All contours with the full nesting tree.
    Tree,
    /// Flood-fill retrieval.
    FloodFill,
}

/// Smallest value among the `x` coordinates of `s`.
pub open spec fn min_x(s: Seq<Point<usize>>) -> int
    decreases s.len(),
{
    if s.len() == 0 {
        usize::MAX as int
    } else {
        let m = min_x(s.drop_last());
        if s.last().x < m { s.last().x as int } else { m }
    }
}

pub open spec fn min_y(s: Seq<Point<usize>>) -> int
    decreases s.len(),
{
    if s.len() == 0 {
        usize::MAX as int
    } else {
        let m = min_y(s.drop_last());
        if s.last().y < m { s.last().y as int } else { m }
    }
}

pub open spec fn max_x(s: Seq<Point<usize>>) -> int
    decreases s.len(),
{
    if s.len() == 0 {
        0
    } else {
        let m = max_x(s.drop_last());
        if s.last().x > m { s.last().x as int } else { m }
    }
}

pub open spec fn max_y(s: Seq<Point<usize>>) -> int
    decreases s.len(),
{
    if s.len() == 0 {
        0
    } else {
        let m = max_y(s.drop_last());
        if s.last().y > m { s.last().y as int } else { m }
    }
}

proof fn lemma_extent_bounds(s: Seq<Point<usize>>)
    requires
        s.len() > 0,
    ensures
        min_x(s) <= max_x(s),
        min_y(s) <= max_y(s),
        forall|i: int| 0 <= i < s.len() ==> min_x(s) <= #[trigger] s[i].x <= max_x(s),
        forall|i: int| 0 <= i < s.len() ==> min_y(s) <= #[trigger] s[i].y <= max_y(s),
        exists|i: int| 0 <= i < s.len() && s[i].x == min_x(s),
        exists|i: int| 0 <= i < s.len() && s[i].x == max_x(s),
        exists|i: int| 0 <= i < s.len() && s[i].y == min_y(s),
        exists|i: int| 0 <= i < s.len() && s[i].y == max_y(s),
    decreases s.len(),
{
    if s.len() > 1 {
        let t = s.drop_last();
        lemma_extent_bounds(t);
        assert forall|i: int| 0 <= i < t.len() implies #[trigger] s[i] == t[i] by {}
        let l = s.len() - 1;
        if s[l].x < min_x(t) {
            assert(s[l].x == min_x(s));
        } else {
            let j = choose|j: int| 0 <= j < t.len() && t[j].x == min_x(t);
            assert(s[j].x == min_x(s));
        }
        if s[l].x > max_x(t) {
            assert(s[l].x == max_x(s));
        } else {
            let j = choose|j: int| 0 <= j < t.len() && t[j].x == max_x(t);
            assert(s[j].x == max_x(s));
        }
        if s[l].y < min_y(t) {
            assert(s[l].y == min_y(s));
        } else {
            let j = choose|j: int| 0 <= j < t.len() && t[j].y == min_y(t);
            assert(s[j].y == min_y(s));
        }
        if s[l].y > max_y(t) {
            assert(s[l].y == max_y(s));
        } else {
            let j = choose|j: int| 0 <= j < t.len() && t[j].y == max_y(t);
            assert(s[j].y == max_y(s));
        }
    } else {
        let t = s.drop_last();
        assert(t.len() == 0);
        assert(min_x(t) == usize::MAX && max_x(t) == 0);
        assert(min_y(t) == usize::MAX && max_y(t) == 0);
        assert(s.last() == s[0]);
        assert(s[0].x == min_x(s) && s[0].x == max_x(s));
        assert(s[0].y == min_y(s) && s[0].y == max_y(s));
    }
}

impl Contour {
    /// Creates a contour from its points.
    pub fn new(points: Vec<Point<usize>>) -> (c: Self)
        ensures
            c.points@ == points@,
    {
        Contour { points }
    }

    /// Convex hull of the contour (Andrew's monotone chain); contours of at
    /// most three points are returned unchanged.
    pub fn convex_hull(&self) -> (hull: Self)
        requires
            coords_bounded(self.points@),
        ensures
            self.points.len() <= 3 ==> hull.points@ == self.points@,
            self.points.len() > 3 ==> is_hull(hull.points@, self.points@),
    {
        Contour { points: monotone_chain_hull(&self.points) }
    }

    /// The upright bounding rectangle of the contour: from the smallest
    /// coordinates, spanning to the largest ones; the zero rectangle when the
    /// contour is empty.
    pub fn bounding_rect(&self) -> (r: Rect<usize>)
        ensures
            self.points.len() == 0 ==> (r == Rect::<usize> { x: 0, y: 0, width: 0, height: 0 }),
            self.points.len() > 0 ==> r.x == min_x(self.points@),
            self.points.len() > 0 ==> r.y == min_y(self.points@),
            self.points.len() > 0 ==> r.width == max_x(self.points@) - min_x(self.points@),
            self.points.len() > 0 ==> r.height == max_y(self.points@) - min_y(self.points@),
    {
        if self.points.len() == 0 {
            return Rect { x: 0, y: 0, width: 0, height: 0 };
        }
        let mut lo_x = usize::MAX;
        let mut lo_y = usize::MAX;
        let mut hi_x: usize = 0;
        let mut hi_y: usize = 0;
        let mut i: usize = 0;
        while i < self.points.len()
            invariant
                i <= self.points.len(),
                lo_x == min_x(self.points@.subrange(0, i as int)),
                lo_y == min_y(self.points@.subrange(0, i as int)),
                hi_x == max_x(self.points@.subrange(0, i as int)),
                hi_y == max_y(self.points@.subrange(0, i as int)),
            decreases self.points.len() - i,
        {
            let p = self.points[i];
            proof {
                let s = self.points@.subrange(0, i as int + 1);
                assert(s.drop_last() =~= self.points@.subrange(0, i as int));
                assert(s.last() == p);
            }
            if p.x < lo_x {
                lo_x = p.x;
            }
            if p.y < lo_y {
                lo_y = p.y;
            }
            if p.x > hi_x {
                hi_x = p.x;
            }
            if p.y > hi_y {
                hi_y = p.y;
            }
            i = i + 1;
        }
        proof {
            assert(self.points@.subrange(0, i as int) =~= self.points@);
            lemma_extent_bounds(self.points@);
        }
        Rect { x: lo_x, y: lo_y, width: hi_x - lo_x, height: hi_y - lo_y }
    }
}

impl Clone for Contour {
    fn clone(&self) -> (c: Self)
        ensures
            c.points@ == self.points@,
    {
        Contour { points: copy_points(&self.points) }
    }
}


/// Contour `i` is reported under `mode`: in `External` mode only contours
/// without an enclosing contour are.
pub open spec fn included(parent: Seq<Option<usize>>, mode: RetrievalMode, i: int) -> bool {
    match mode {
        RetrievalMode::External => parent[i] is None,
        _ => true,
    }
}

/// Number of reported contours among the first `i`.
pub open spec fn rank(parent: Seq<Option<usize>>, mode: RetrievalMode, i: int) -> int
    decreases i,
{
    if i <= 0 {
        0
    } else {
        rank(parent, mode, i - 1) + if included(parent, mode, i - 1) { 1int } else { 0int }
    }
}

/// Position of contour `i` in the report, or -1 when it is left out.
pub open spec fn new_index(parent: Seq<Option<usize>>, mode: RetrievalMode, i: int) -> int {
    if included(parent, mode, i) {
        rank(parent, mode, i)
    } else {
        -1
    }
}

/// Report position of the first reported contour at or after `k` sharing the
/// enclosing contour of `old`; -1 if none.
pub open spec fn next_sibling(parent: Seq<Option<usize>>, mode: RetrievalMode, old: int, k: int) -> int
    decreases parent.len() - k,
{
    if k >= parent.len() || k < 0 {
        -1
    } else if parent[k] == parent[old] && included(parent, mode, k) {
        new_index(parent, mode, k)
    } else {
        next_sibling(parent, mode, old, k + 1)
    }
}

/// Report position of the last reported contour before `k` sharing the
/// enclosing contour of `old`; -1 if none.
pub open spec fn prev_sibling(parent: Seq<Option<usize>>, mode: RetrievalMode, old: int, k: int) -> int
    decreases k,
{
    if k <= 0 || k > parent.len() {
        -1
    } else if parent[k - 1] == parent[old] && included(parent, mode, k - 1) {
        new_index(parent, mode, k - 1)
    } else {
        prev_sibling(parent, mode, old, k - 1)
    }
}

/// Report position of the first reported contour at or after `k` whose
/// enclosing contour is `old`; -1 if none.
pub open spec fn first_child(parent: Seq<Option<usize>>, mode: RetrievalMode, old: int, k: int) -> int
    decreases parent.len() - k,
{
    if k >= parent.len() || k < 0 {
        -1
    } else if parent[k] == Some(old as usize) && included(parent, mode, k) {
        new_index(parent, mode, k)
    } else {
        first_child(parent, mode, old, k + 1)
    }
}

/// The hierarchy entry `[next, previous, first child, parent]` of contour
/// `old`, as report positions with -1 for none.
pub open spec fn hierarchy_entry(parent: Seq<Option<usize>>, mode: RetrievalMode, old: int) -> (int, int, int, int) {
    (
        if parent[old] is Some { next_sibling(parent, mode, old, old + 1) } else { -1 },
        if parent[old] is Some { prev_sibling(parent, mode, old, old) } else { -1 },
        first_child(parent, mode, old, 0),
        match parent[old] {
            Some(p) => new_index(parent, mode, p as int),
            None => -1,
        },
    )
}

pub open spec fn entry_of(e: [i32; 4]) -> (int, int, int, int) {
    (e[0] as int, e[1] as int, e[2] as int, e[3] as int)
}

/// Every enclosing-contour reference points at a contour of the list.
pub open spec fn parents_valid(parent: Seq<Option<usize>>) -> bool {
    forall|i: int| 0 <= i < parent.len() ==> (#[trigger] parent[i] matches Some(p) ==> p < parent.len())
}

proof fn lemma_rank_bounds(parent: Seq<Option<usize>>, mode: RetrievalMode, i: int, j: int)
    requires
        0 <= i <= j,
    ensures
        0 <= rank(parent, mode, i) <= rank(parent, mode, j) <= j,
        rank(parent, mode, i) <= i,
        i < j && included(parent, mode, i) ==> rank(parent, mode, i) < rank(parent, mode, j),
    decreases j,
{
    if i < j {
        lemma_rank_bounds(parent, mode, i, j - 1);
    } else if j > 0 {
        lemma_rank_bounds(parent, mode, j - 1, j - 1);
    }
}

fn same_parent(a: Option<usize>, b: Option<usize>) -> (r: bool)
    ensures
        r == (a == b),
{
    match (a, b) {
        (Some(x), Some(y)) => x == y,
        (None, None) => true,
        _ => false,
    }
}

fn is_included(p: Option<usize>, mode: RetrievalMode) -> (r: bool)
    ensures
        r == match mode {
            RetrievalMode::External => p is None,
            _ => true,
        },
{
    match mode {
        RetrievalMode::External => p.is_none(),
        _ => true,
    }
}

/// Number of enclosing contours above contour `i`, following `parent` at
/// most `fuel` steps.
pub open spec fn chain_depth(parent: Seq<Option<usize>>, i: int, fuel: nat) -> nat
    decreases fuel,
{
    if fuel == 0 {
        0
    } else {
        match parent[i] {
            Some(p) => 1 + chain_depth(parent, p as int, (fuel - 1) as nat),
            None => 0,
        }
    }
}

/// Nesting depth of contour `i`: 0 for an outer contour, 1 for a hole in
/// it, 2 for a contour inside that hole, and so on.
pub open spec fn depth_of(parent: Seq<Option<usize>>, i: int) -> nat {
    chain_depth(parent, i, parent.len())
}

/// The enclosing contour that `mode` reports for contour `i`: none in a
/// flat `List`; in `CComp`, only the outer boundary of a hole (a contour at
/// odd depth whose parent lies at even depth), so that every contour at even
/// depth starts a component of its own; the smallest enclosing contour in
/// every other mode.
pub open spec fn mode_parent(parent: Seq<Option<usize>>, mode: RetrievalMode, i: int) -> Option<usize> {
    match mode {
        RetrievalMode::List => None,
        RetrievalMode::CComp => match parent[i] {
            Some(p) => if depth_of(parent, i) % 2 == 1 && depth_of(parent, p as int) % 2 == 0 {
                Some(p)
            } else {
                None
            },
            None => None,
        },
        _ => parent[i],
    }
}

/// The enclosing contours that `mode` reports, for all contours.
pub open spec fn mode_parents(parent: Seq<Option<usize>>, mode: RetrievalMode) -> Seq<Option<usize>> {
    Seq::new(parent.len(), |i: int| mode_parent(parent, mode, i))
}

proof fn lemma_no_child_in_flat(parent: Seq<Option<usize>>, old: int, k: int)
    requires
        forall|j: int| 0 <= j < parent.len() ==> #[trigger] parent[j] is None,
    ensures
        first_child(parent, RetrievalMode::List, old, k) == -1,
    decreases parent.len() - k,
{
    if 0 <= k < parent.len() {
        lemma_no_child_in_flat(parent, old, k + 1);
    }
}

/// In `List` mode the contours form a flat list: no contour has a parent, a
/// child or a sibling link.
pub proof fn law_list_is_flat(parent: Seq<Option<usize>>, i: int)
    requires
        parents_valid(parent),
        0 <= i < parent.len(),
    ensures
        hierarchy_entry(mode_parents(parent, RetrievalMode::List), RetrievalMode::List, i) == (-1int, -1int, -1int, -1int),
{
    let m = mode_parents(parent, RetrievalMode::List);
    assert forall|j: int| 0 <= j < m.len() implies #[trigger] m[j] is None by {}
    lemma_no_child_in_flat(m, i, 0);
}

proof fn lemma_rank_all(parent: Seq<Option<usize>>, mode: RetrievalMode, i: int)
    requires
        0 <= i,
        !(mode is External),
    ensures
        rank(parent, mode, i) == i,
    decreases i,
{
    if i > 0 {
        lemma_rank_all(parent, mode, i - 1);
    }
}

/// `List` retrieves every contour, in order, just as `Tree` does, and reports
/// none of them as having a child or a parent.
pub proof fn law_list_retrieves_all_flat(parent: Seq<Option<usize>>)
    requires
        parents_valid(parent),
    ensures
        rank(mode_parents(parent, RetrievalMode::List), RetrievalMode::List, parent.len() as int) == parent.len(),
        rank(mode_parents(parent, RetrievalMode::Tree), RetrievalMode::Tree, parent.len() as int) == parent.len(),
        forall|i: int|
            0 <= i < parent.len() ==> included(mode_parents(parent, RetrievalMode::List), RetrievalMode::List, i)
                && #[trigger] rank(mode_parents(parent, RetrievalMode::List), RetrievalMode::List, i) == i
                && included(mode_parents(parent, RetrievalMode::Tree), RetrievalMode::Tree, i)
                && rank(mode_parents(parent, RetrievalMode::Tree), RetrievalMode::Tree, i) == i,
        forall|i: int|
            0 <= i < parent.len() ==> (#[trigger] hierarchy_entry(mode_parents(parent, RetrievalMode::List), RetrievalMode::List, i)).2
                == -1 && hierarchy_entry(mode_parents(parent, RetrievalMode::List), RetrievalMode::List, i).3 == -1,
{
    let l = mode_parents(parent, RetrievalMode::List);
    let t = mode_parents(parent, RetrievalMode::Tree);
    lemma_rank_all(l, RetrievalMode::List, parent.len() as int);
    lemma_rank_all(t, RetrievalMode::Tree, parent.len() as int);
    assert forall|i: int| 0 <= i < parent.len() implies included(l, RetrievalMode::List, i)
        && #[trigger] rank(l, RetrievalMode::List, i) == i && included(t, RetrievalMode::Tree, i) && rank(
        t,
        RetrievalMode::Tree,
        i,
    ) == i by {
        lemma_rank_all(l, RetrievalMode::List, i);
        lemma_rank_all(t, RetrievalMode::Tree, i);
    }
    assert forall|i: int| 0 <= i < parent.len() implies (#[trigger] hierarchy_entry(l, RetrievalMode::List, i)).2 == -1
        && hierarchy_entry(l, RetrievalMode::List, i).3 == -1 by {
        law_list_is_flat(parent, i);
    }
}

/// Contour `j` is reported under `mode` and shares the enclosing contour of
/// contour `old`.
pub open spec fn is_sib(parent: Seq<Option<usize>>, mode: RetrievalMode, old: int, j: int) -> bool {
    parent[j] == parent[old] && included(parent, mode, j)
}

proof fn lemma_prev_scan(parent: Seq<Option<usize>>, mode: RetrievalMode, old: int, k: int)
    requires
        0 <= old < parent.len(),
        0 <= k <= old,
    ensures
        prev_sibling(parent, mode, old, k) == -1 ==> forall|j: int| 0 <= j < k ==> !#[trigger] is_sib(parent, mode, old, j),
        prev_sibling(parent, mode, old, k) != -1 ==> exists|j: int|
            0 <= j < k && #[trigger] is_sib(parent, mode, old, j) && new_index(parent, mode, j) == prev_sibling(
                parent,
                mode,
                old,
                k,
            ) && forall|q: int| j < q < k ==> !#[trigger] is_sib(parent, mode, old, q),
    decreases k,
{
    if k > 0 {
        lemma_prev_scan(parent, mode, old, k - 1);
        if is_sib(parent, mode, old, k - 1) {
            lemma_rank_bounds(parent, mode, k - 1, k - 1);
            assert(new_index(parent, mode, k - 1) >= 0);
            assert(prev_sibling(parent, mode, old, k) == new_index(parent, mode, k - 1));
        }
    }
}

proof fn lemma_next_scan(parent: Seq<Option<usize>>, mode: RetrievalMode, old: int, k: int)
    requires
        0 <= old < parent.len(),
        old < k <= parent.len(),
    ensures
        next_sibling(parent, mode, old, k) == -1 ==> forall|j: int| k <= j < parent.len() ==> !#[trigger] is_sib(
            parent,
            mode,
            old,
            j,
        ),
        next_sibling(parent, mode, old, k) != -1 ==> exists|j: int|
            k <= j < parent.len() && #[trigger] is_sib(parent, mode, old, j) && new_index(parent, mode, j)
                == next_sibling(parent, mode, old, k) && forall|q: int| k <= q < j ==> !#[trigger] is_sib(
                parent,
                mode,
                old,
                q,
            ),
    decreases parent.len() - k,
{
    if k < parent.len() {
        lemma_next_scan(parent, mode, old, k + 1);
        if is_sib(parent, mode, old, k) {
            lemma_rank_bounds(parent, mode, k, k);
            assert(new_index(parent, mode, k) >= 0);
            assert(next_sibling(parent, mode, old, k) == new_index(parent, mode, k));
        }
    }
}

/// The sibling links of a reported contour name its nearest reported
/// siblings: the previous link is -1 when no earlier reported contour shares
/// its enclosing contour, and otherwise the report position of the latest
/// such contour before it; the next link likewise names the earliest one
/// after it. Contours without an enclosing contour get no sibling links.
pub proof fn law_sibling_links_are_nearest(parent: Seq<Option<usize>>, mode: RetrievalMode, old: int)
    requires
        0 <= old < parent.len(),
    ensures
        ({
            let m = mode_parents(parent, mode);
            let e = hierarchy_entry(m, mode, old);
            &&& m[old] is None ==> e.0 == -1 && e.1 == -1
            &&& m[old] is Some ==> (e.1 == -1 <==> forall|j: int| 0 <= j < old ==> !#[trigger] is_sib(m, mode, old, j))
            &&& m[old] is Some && e.1 != -1 ==> exists|j: int|
                0 <= j < old && #[trigger] is_sib(m, mode, old, j) && new_index(m, mode, j) == e.1 && forall|q: int|
                    j < q < old ==> !#[trigger] is_sib(m, mode, old, q)
            &&& m[old] is Some ==> (e.0 == -1 <==> forall|j: int| old < j < parent.len() ==> !#[trigger] is_sib(m, mode, old, j))
            &&& m[old] is Some && e.0 != -1 ==> exists|j: int|
                old < j < parent.len() && #[trigger] is_sib(m, mode, old, j) && new_index(m, mode, j) == e.0
                    && forall|q: int| old < q < j ==> !#[trigger] is_sib(m, mode, old, q)
        }),
{
    let m = mode_parents(parent, mode);
    lemma_prev_scan(m, mode, old, old);
    lemma_next_scan(m, mode, old, old + 1);
    let e = hierarchy_entry(m, mode, old);
    if m[old] is Some {
        if e.1 != -1 {
            let j = choose|j: int|
                0 <= j < old && #[trigger] is_sib(m, mode, old, j) && new_index(m, mode, j) == prev_sibling(m, mode, old, old)
                    && forall|q: int| j < q < old ==> !#[trigger] is_sib(m, mode, old, q);
            assert(!(forall|j2: int| 0 <= j2 < old ==> !#[trigger] is_sib(m, mode, old, j2)));
        }
        if e.0 != -1 {
            let j = choose|j: int|
                old + 1 <= j < parent.len() && #[trigger] is_sib(m, mode, old, j) && new_index(m, mode, j) == next_sibling(
                    m,
                    mode,
                    old,
                    old + 1,
                ) && forall|q: int| old + 1 <= q < j ==> !#[trigger] is_sib(m, mode, old, q);
            assert(!(forall|j2: int| old < j2 < parent.len() ==> !#[trigger] is_sib(m, mode, old, j2)));
        }
    }
}

/// In `CComp` mode nesting is at most two levels deep: the contour reported
/// as enclosing another one has no enclosing contour itself.
pub proof fn law_ccomp_two_levels(parent: Seq<Option<usize>>, i: int)
    requires
        parents_valid(parent),
        0 <= i < parent.len(),
        mode_parents(parent, RetrievalMode::CComp)[i] is Some,
    ensures
        ({
            let m = mode_parents(parent, RetrievalMode::CComp);
            let p = m[i]->Some_0 as int;
            &&& 0 <= p < parent.len()
            &&& m[p] is None
            &&& hierarchy_entry(m, RetrievalMode::CComp, p).3 == -1
        }),
{
    let m = mode_parents(parent, RetrievalMode::CComp);
    let p = m[i]->Some_0 as int;
    assert(parent[i] == Some(p as usize));
    assert(depth_of(parent, p) % 2 == 0);
}

/// Nesting depth of contour `i`.
fn nesting_depth(parent: &Vec<Option<usize>>, i: usize) -> (d: usize)
    requires
        parents_valid(parent@),
        i < parent.len(),
    ensures
        d == depth_of(parent@, i as int),
{
    let n = parent.len();
    let mut cur = i;
    let mut d: usize = 0;
    let mut fuel = n;
    while fuel > 0 && parent[cur].is_some()
        invariant
            n == parent.len(),
            parents_valid(parent@),
            cur < n,
            fuel <= n,
            d + fuel == n,
            d + chain_depth(parent@, cur as int, fuel as nat) == chain_depth(parent@, i as int, n as nat),
        decreases fuel,
    {
        let p = parent[cur].unwrap();
        cur = p;
        d = d + 1;
        fuel = fuel - 1;
    }
    d
}

/// The enclosing contours that `mode` reports.
fn reported_parents(parent: &Vec<Option<usize>>, mode: RetrievalMode) -> (eff: Vec<Option<usize>>)
    requires
        parents_valid(parent@),
    ensures
        eff@ == mode_parents(parent@, mode),
        parents_valid(eff@),
{
    let n = parent.len();
    let mut depths: Vec<usize> = Vec::new();
    if let RetrievalMode::CComp = mode {
        let mut i: usize = 0;
        while i < n
            invariant
                n == parent.len(),
                parents_valid(parent@),
                i <= n,
                depths.len() == i,
                forall|j: int| 0 <= j < i ==> #[trigger] depths@[j] == depth_of(parent@, j),
            decreases n - i,
        {
            depths.push(nesting_depth(parent, i));
            i = i + 1;
        }
    }
    let mut eff: Vec<Option<usize>> = Vec::new();
    let mut i: usize = 0;
    while i < n
        invariant
            n == parent.len(),
            parents_valid(parent@),
            i <= n,
            mode is CComp ==> depths.len() == n,
            mode is CComp ==> forall|j: int| 0 <= j < n ==> #[trigger] depths@[j] == depth_of(parent@, j),
            eff.len() == i,
            forall|j: int| 0 <= j < i ==> #[trigger] eff@[j] == mode_parent(parent@, mode, j),
        decreases n - i,
    {
        let e: Option<usize> = match mode {
            RetrievalMode::List => None,
            RetrievalMode::CComp => match parent[i] {
                Some(p) => if depths[i] % 2 == 1 && depths[p] % 2 == 0 {
                    Some(p)
                } else {
                    None
                },
                None => None,
            },
            _ => parent[i],
        };
        eff.push(e);
        i = i + 1;
    }
    proof {
        assert(eff@ =~= mode_parents(parent@, mode));
    }
    eff
}

/// Selects the contours reported under `mode` and computes, for each, its
/// hierarchy entry `[next, previous, first child, parent]` from the index of
/// its smallest enclosing contour in `parent`: `List` reports no nesting,
/// `CComp` reports outer boundaries and their holes only (see
/// `mode_parent`), the other modes the full nesting.
pub fn build_hierarchy(parent: &Vec<Option<usize>>, mode: RetrievalMode) -> (res: (Vec<usize>, Vec<[i32; 4]>))
    requires
        parent.len() < 0x7fff_ffff,
        parents_valid(parent@),
    ensures
        res.0.len() == rank(mode_parents(parent@, mode), mode, parent.len() as int),
        res.1.len() == res.0.len(),
        forall|t: int|
            0 <= t < res.0.len() ==> #[trigger] res.0@[t] < parent.len() && included(mode_parents(parent@, mode), mode, res.0@[t] as int)
                && rank(mode_parents(parent@, mode), mode, res.0@[t] as int) == t,
        forall|t: int|
            0 <= t < res.1.len() ==> entry_of(#[trigger] res.1@[t]) == hierarchy_entry(
                mode_parents(parent@, mode),
                mode,
                res.0@[t] as int,
            ),
{
    let eff = reported_parents(parent, mode);
    hierarchy_of(&eff, mode)
}

/// The hierarchy of the contours reported under `mode`, given the enclosing
/// contour reported for each.
fn hierarchy_of(parent: &Vec<Option<usize>>, mode: RetrievalMode) -> (res: (Vec<usize>, Vec<[i32; 4]>))
    requires
        parent.len() < 0x7fff_ffff,
        parents_valid(parent@),
    ensures
        res.0.len() == rank(parent@, mode, parent.len() as int),
        res.1.len() == res.0.len(),
        forall|t: int|
            0 <= t < res.0.len() ==> #[trigger] res.0@[t] < parent.len() && included(parent@, mode, res.0@[t] as int)
                && rank(parent@, mode, res.0@[t] as int) == t,
        forall|t: int|
            0 <= t < res.1.len() ==> entry_of(#[trigger] res.1@[t]) == hierarchy_entry(
                parent@,
                mode,
                res.0@[t] as int,
            ),
{
    let n = parent.len();
    let ghost ps = parent@;
    let mut filtered: Vec<usize> = Vec::new();
    let mut index_map: Vec<i32> = Vec::new();
    let mut i: usize = 0;
    while i < n
        invariant
            n == parent.len(),
            ps == parent@,
            n < 0x7fff_ffff,
            i <= n,
            index_map.len() == i,
            filtered.len() == rank(ps, mode, i as int),
            forall|j: int| 0 <= j < i ==> #[trigger] index_map@[j] as int == new_index(ps, mode, j),
            forall|t: int|
                0 <= t < filtered.len() ==> #[trigger] filtered@[t] < i && included(ps, mode, filtered@[t] as int)
                    && rank(ps, mode, filtered@[t] as int) == t,
        decreases n - i,
    {
        proof {
            lemma_rank_bounds(ps, mode, i as int, i as int);
        }
        if is_included(parent[i], mode) {
            index_map.push(filtered.len() as i32);
            filtered.push(i);
        } else {
            index_map.push(-1);
        }
        i = i + 1;
    }
    let mut hierarchy: Vec<[i32; 4]> = Vec::new();
    let mut t: usize = 0;
    while t < filtered.len()
        invariant
            n == parent.len(),
            ps == parent@,
            parents_valid(ps),
            index_map.len() == n,
            filtered.len() == rank(ps, mode, n as int),
            forall|j: int| 0 <= j < n ==> #[trigger] index_map@[j] as int == new_index(ps, mode, j),
            forall|q: int|
                0 <= q < filtered.len() ==> #[trigger] filtered@[q] < n && included(ps, mode, filtered@[q] as int)
                    && rank(ps, mode, filtered@[q] as int) == q,
            t <= filtered.len(),
            hierarchy.len() == t,
            forall|q: int|
                0 <= q < t ==> entry_of(#[trigger] hierarchy@[q]) == hierarchy_entry(ps, mode, filtered@[q] as int),
        decreases filtered.len() - t,
    {
        let old = filtered[t];
        let own = parent[old];
        // next sibling
        let mut next: i32 = -1;
        if own.is_some() {
            let mut k = old + 1;
            while k < n
                invariant_except_break
                    next == -1,
                invariant
                    n == parent.len(),
                    ps == parent@,
                    old < n,
                    own == ps[old as int],
                    old < k <= n,
                    index_map.len() == n,
                    forall|j: int| 0 <= j < n ==> #[trigger] index_map@[j] as int == new_index(ps, mode, j),
                    next_sibling(ps, mode, old as int, old as int + 1) == next_sibling(ps, mode, old as int, k as int),
                ensures
                    next as int == next_sibling(ps, mode, old as int, old as int + 1),
                decreases n - k,
            {
                if same_parent(parent[k], own) && is_included(parent[k], mode) {
                    next = index_map[k];
                    break;
                }
                k = k + 1;
            }
        }
        // previous sibling
        let mut prev: i32 = -1;
        if own.is_some() {
            let mut k = old;
            while k > 0
                invariant_except_break
                    prev == -1,
                invariant
                    n == parent.len(),
                    ps == parent@,
                    old < n,
                    own == ps[old as int],
                    k <= old,
                    index_map.len() == n,
                    forall|j: int| 0 <= j < n ==> #[trigger] index_map@[j] as int == new_index(ps, mode, j),
                    prev_sibling(ps, mode, old as int, old as int) == prev_sibling(ps, mode, old as int, k as int),
                ensures
                    prev as int == prev_sibling(ps, mode, old as int, old as int),
                decreases k,
            {
                if same_parent(parent[k - 1], own) && is_included(parent[k - 1], mode) {
                    prev = index_map[k - 1];
                    break;
                }
                k = k - 1;
            }
        }
        // first child
        let mut child: i32 = -1;
        let mut k: usize = 0;
        while k < n
            invariant_except_break
                child == -1,
            invariant
                n == parent.len(),
                ps == parent@,
                old < n,
                k <= n,
                index_map.len() == n,
                forall|j: int| 0 <= j < n ==> #[trigger] index_map@[j] as int == new_index(ps, mode, j),
                first_child(ps, mode, old as int, 0) == first_child(ps, mode, old as int, k as int),
            ensures
                child as int == first_child(ps, mode, old as int, 0),
            decreases n - k,
        {
            if same_parent(parent[k], Some(old)) && is_included(parent[k], mode) {
                child = index_map[k];
                break;
            }
            k = k + 1;
        }
        let up: i32 = match own {
            Some(p) => index_map[p],
            None => -1,
        };
        hierarchy.push([next, prev, child, up]);
        proof {
            let e = hierarchy@[t as int];
            assert(entry_of(e) == hierarchy_entry(ps, mode, old as int));
        }
        t = t + 1;
    }
    (filtered, hierarchy)
}

} // verus!
