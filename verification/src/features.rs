//! Feature detection and matching parameters, the fixed BRIEF sampling
//! pattern, the FAST contiguous-arc test and the tree permutations of the
//! approximate matcher.
use vstd::prelude::*;

verus! {

/// Template matching method.
#[derive(Clone, Copy, Debug, PartialEq, Eq)]
pub enum TemplateMatchMethod {
    TmSqdiff,
    TmSqdiffNormed,
    TmCcorr,
    TmCcorrNormed,
    TmCcoeff,
    TmCcoeffNormed,
}

/// Feature detector type.
pub enum FeatureType {
    ORB,
    BRISK,
    AKAZE,
    SIFT,
}

/// Keypoint detector (FAST corners with ORB descriptors).
pub struct FeatureDetector {
    pub detector_type: FeatureType,
    pub max_features: usize,
}

impl FeatureDetector {
    /// Creates a detector keeping at most 500 features.
    pub fn new(detector_type: FeatureType) -> (d: Self)
        ensures
            d.detector_type == detector_type,
            d.max_features == 500,
    {
        FeatureDetector { detector_type, max_features: 500 }
    }

    /// Sets the maximum number of features kept.
    pub fn with_max_features(self, max: usize) -> (d: Self)
        ensures
            d.detector_type == self.detector_type,
            d.max_features == max,
    {
        FeatureDetector { detector_type: self.detector_type, max_features: max }
    }
}

/// Brute-force descriptor matcher.
pub struct BFMatcher;

/// Draws descriptor matches between two images.
pub struct MatchDrawer;

/// Approximate nearest-neighbour matcher over a forest of KD-trees.
pub struct FlannMatcher {
    pub k: usize,
    pub trees: usize,
    pub checks: usize,
}

impl FlannMatcher {
    /// Creates a matcher with `k = 2`, 5 trees and 32 checks.
    pub fn new() -> (m: Self)
        ensures
            m.k == 2,
            m.trees == 5,
            m.checks == 32,
    {
        FlannMatcher { k: 2, trees: 5, checks: 32 }
    }

    /// Sets the number of nearest neighbours.
    pub fn with_k(self, k: usize) -> (m: Self)
        ensures
            m.k == k,
            m.trees == self.trees,
            m.checks == self.checks,
    {
        FlannMatcher { k, trees: self.trees, checks: self.checks }
    }

    /// Sets the number of trees in the forest.
    pub fn with_trees(self, trees: usize) -> (m: Self)
        ensures
            m.k == self.k,
            m.trees == trees,
            m.checks == self.checks,
    {
        FlannMatcher { k: self.k, trees, checks: self.checks }
    }

    /// Sets the maximum number of node checks per tree search.
    pub fn with_checks(self, checks: usize) -> (m: Self)
        ensures
            m.k == self.k,
            m.trees == self.trees,
            m.checks == checks,
    {
        FlannMatcher { k: self.k, trees: self.trees, checks }
    }
}

impl Default for FlannMatcher {
    fn default() -> (m: Self)
        ensures
            m.k == 2,
            m.trees == 5,
            m.checks == 32,
    {
        FlannMatcher::new()
    }
}

/// One step of the 32-bit linear congruential generator.
pub open spec fn lcg(s: u32) -> u32 {
    ((s as int * 1103515245 + 12345) % 0x1_0000_0000) as u32
}

/// The state after `n` generator steps from `s`.
pub open spec fn lcg_iter(s: u32, n: nat) -> u32
    decreases n,
{
    if n == 0 {
        s
    } else {
        lcg(lcg_iter(s, (n - 1) as nat))
    }
}

/// Offset in [-15, 15] drawn from generator state `s`: its high half modulo 31, minus 15.
pub open spec fn pattern_offset(s: u32) -> int {
    (s as int / 0x1_0000) % 31 - 15
}

/// The `i`-th sampling pair of the BRIEF pattern, from the generator seeded
/// with 42: four consecutive draws give `(x1, y1, x2, y2)`.
pub open spec fn brief_pair(i: int) -> (int, int, int, int) {
    (
        pattern_offset(lcg_iter(42, (4 * i + 1) as nat)),
        pattern_offset(lcg_iter(42, (4 * i + 2) as nat)),
        pattern_offset(lcg_iter(42, (4 * i + 3) as nat)),
        pattern_offset(lcg_iter(42, (4 * i + 4) as nat)),
    )
}

fn lcg_step(s: u32) -> (r: u32)
    ensures
        r == lcg(s),
{
    s.wrapping_mul(1103515245).wrapping_add(12345)
}

fn offset_of(s: u32) -> (r: i32)
    ensures
        r as int == pattern_offset(s),
        -15 <= r <= 15,
{
    let hi = s >> 16u32;
    assert(hi == s / 0x1_0000) by (bit_vector)
        requires
            hi == s >> 16u32,
    ;
    let v = (hi % 31) as i32;
    v - 15
}

/// The fixed pseudo-random sampling pattern of the BRIEF descriptor: 256
/// point pairs with coordinates in [-15, 15].
pub fn generate_brief_pattern() -> (pattern: [(i32, i32, i32, i32); 256])
    ensures
        forall|i: int|
            0 <= i < 256 ==> ((#[trigger] pattern[i]).0 as int, pattern[i].1 as int, pattern[i].2 as int,
                pattern[i].3 as int) == brief_pair(i),
{
    let mut pattern = [(0i32, 0i32, 0i32, 0i32); 256];
    let mut seed: u32 = 42;
    let mut i: usize = 0;
    while i < 256
        invariant
            i <= 256,
            seed == lcg_iter(42, (4 * i) as nat),
            forall|t: int|
                0 <= t < i ==> ((#[trigger] pattern[t]).0 as int, pattern[t].1 as int, pattern[t].2 as int,
                    pattern[t].3 as int) == brief_pair(t),
        decreases 256 - i,
    {
        seed = lcg_step(seed);
        let x1 = offset_of(seed);
        seed = lcg_step(seed);
        let y1 = offset_of(seed);
        seed = lcg_step(seed);
        let x2 = offset_of(seed);
        seed = lcg_step(seed);
        let y2 = offset_of(seed);
        pattern[i] = (x1, y1, x2, y2);
        proof {
            assert(lcg_iter(42, (4 * i + 1) as nat) == lcg(lcg_iter(42, (4 * i) as nat)));
            assert(lcg_iter(42, (4 * i + 2) as nat) == lcg(lcg_iter(42, (4 * i + 1) as nat)));
            assert(lcg_iter(42, (4 * i + 3) as nat) == lcg(lcg_iter(42, (4 * i + 2) as nat)));
            assert(lcg_iter(42, (4 * i + 4) as nat) == lcg(lcg_iter(42, (4 * i + 3) as nat)));
        }
        i = i + 1;
    }
    pattern
}

/// Length of the run of set flags ending at position `i` of the circle read
/// twice round (positions taken modulo 16).
pub open spec fn run_len(f: Seq<bool>, i: int) -> nat
    decreases i + 1,
{
    if i < 0 {
        0
    } else if f[i % 16] {
        run_len(f, i - 1) + 1
    } else {
        0
    }
}

/// Longest run ending at any of the positions `0 .. i`.
pub open spec fn max_run(f: Seq<bool>, i: int) -> nat
    decreases i,
{
    if i <= 0 {
        0
    } else {
        let m = max_run(f, i - 1);
        let r = run_len(f, i - 1);
        if r > m { r } else { m }
    }
}

/// Longest contiguous arc of set flags on the 16-pixel FAST circle, reading
/// the circle twice round so that arcs wrapping past the start count whole.
pub fn fast_arc_length(flags: &[bool; 16]) -> (len: usize)
    ensures
        len == max_run(flags@, 32),
        len <= 32,
{
    let mut max_arc: usize = 0;
    let mut current: usize = 0;
    let mut i: usize = 0;
    while i < 32
        invariant
            i <= 32,
            current == run_len(flags@, i as int - 1),
            max_arc == max_run(flags@, i as int),
            current <= i,
            max_arc <= i,
        decreases 32 - i,
    {
        if flags[i % 16] {
            current = current + 1;
            if current > max_arc {
                max_arc = current;
            }
        } else {
            current = 0;
        }
        i = i + 1;
    }
    max_arc
}

/// The flag at circle position `p`, positions taken modulo 16.
pub open spec fn flag_at(f: Seq<bool>, p: int) -> bool {
    f[p % 16]
}

/// The `len` consecutive circle positions from `a` on all have their flags set.
pub open spec fn arc_at(f: Seq<bool>, a: int, len: int) -> bool {
    forall|p: int| a <= p < a + len ==> #[trigger] flag_at(f, p)
}

proof fn lemma_run_set(f: Seq<bool>, i: int, t: int)
    requires
        0 <= t < run_len(f, i),
    ensures
        flag_at(f, i - t),
    decreases i + 1,
{
    if t > 0 {
        lemma_run_set(f, i - 1, t - 1);
    }
}

proof fn lemma_run_bound(f: Seq<bool>, i: int)
    requires
        i >= -1,
    ensures
        run_len(f, i) <= i + 1,
    decreases i + 1,
{
    if i >= 0 {
        lemma_run_bound(f, i - 1);
    }
}

proof fn lemma_run_ge(f: Seq<bool>, i: int, m: int)
    requires
        0 <= m <= i + 1,
        forall|p: int| i - m < p <= i ==> #[trigger] flag_at(f, p),
    ensures
        run_len(f, i) >= m,
    decreases m,
{
    if m > 0 {
        assert(flag_at(f, i));
        lemma_run_ge(f, i - 1, m - 1);
    }
}

proof fn lemma_max_run_ge(f: Seq<bool>, i: int, j: int)
    requires
        0 <= j < i,
    ensures
        run_len(f, j) <= max_run(f, i),
    decreases i,
{
    if j < i - 1 {
        lemma_max_run_ge(f, i - 1, j);
    }
}

proof fn lemma_max_run_attained(f: Seq<bool>, i: int)
    requires
        i >= 1,
    ensures
        exists|j: int| 0 <= j < i && #[trigger] run_len(f, j) == max_run(f, i),
    decreases i,
{
    if i > 1 {
        lemma_max_run_attained(f, i - 1);
        if run_len(f, i - 1) <= max_run(f, i - 1) {
            let j = choose|j: int| 0 <= j < i - 1 && #[trigger] run_len(f, j) == max_run(f, i - 1);
            assert(run_len(f, j) == max_run(f, i));
        } else {
            assert(run_len(f, i - 1) == max_run(f, i));
        }
    } else {
        assert(max_run(f, 0) == 0);
        assert(run_len(f, 0) == max_run(f, 1));
    }
}

proof fn lemma_all_set_runs(f: Seq<bool>, i: int)
    requires
        f.len() == 16,
        forall|k: int| 0 <= k < 16 ==> f[k],
        i >= 0,
    ensures
        run_len(f, i - 1) == i,
        max_run(f, i) == i,
    decreases i,
{
    if i > 0 {
        lemma_all_set_runs(f, i - 1);
        vstd::arithmetic::div_mod::lemma_mod_bound(i - 1, 16);
        assert(f[(i - 1) % 16]);
    }
}

/// With a clear flag somewhere, no run of set flags reaches 16 positions.
proof fn lemma_run_below_circle(f: Seq<bool>, k: int, i: int)
    requires
        f.len() == 16,
        0 <= k < 16,
        !f[k],
        i >= 0,
    ensures
        run_len(f, i) <= 15,
{
    if run_len(f, i) >= 16 {
        vstd::arithmetic::div_mod::lemma_fundamental_div_mod(i - k, 16);
        vstd::arithmetic::div_mod::lemma_mod_bound(i - k, 16);
        let t = (i - k) % 16;
        let q = (i - k) / 16;
        lemma_run_set(f, i, t);
        assert(i - t == 16 * q + k);
        vstd::arithmetic::div_mod::lemma_mod_multiples_vanish(q, k, 16);
        vstd::arithmetic::div_mod::lemma_small_mod(k as nat, 16);
        assert(flag_at(f, i - t));
        assert((i - t) % 16 == k);
    }
}

/// The FAST arc length is the length of the longest arc of set flags around
/// the circle: when every flag is set it is the whole doubled circle (32);
/// otherwise it is at most 15, some run of that many consecutive positions
/// (taken round the circle) is all set, and no run of one more is. A clear
/// flag always ends an arc.
pub proof fn law_fast_arc_is_longest_arc(f: Seq<bool>)
    requires
        f.len() == 16,
    ensures
        (forall|k: int| 0 <= k < 16 ==> f[k]) ==> max_run(f, 32) == 32,
        (exists|k: int| 0 <= k < 16 && !f[k]) ==> {
            &&& max_run(f, 32) <= 15
            &&& exists|a: int| 0 <= a < 16 && #[trigger] arc_at(f, a, max_run(f, 32) as int)
            &&& forall|a: int| 0 <= a < 16 ==> !#[trigger] arc_at(f, a, max_run(f, 32) as int + 1)
        },
{
    if forall|k: int| 0 <= k < 16 ==> f[k] {
        lemma_all_set_runs(f, 32);
    }
    if exists|k: int| 0 <= k < 16 && !f[k] {
        let k = choose|k: int| 0 <= k < 16 && !f[k];
        let l = max_run(f, 32) as int;
        lemma_max_run_attained(f, 32);
        let j = choose|j: int| 0 <= j < 32 && #[trigger] run_len(f, j) == max_run(f, 32);
        lemma_run_below_circle(f, k, j);
        lemma_run_bound(f, j);
        // The run ending at j starts at a0 and is an arc from a0 % 16.
        let a0 = j - l + 1;
        let a = a0 % 16;
        let q = a0 / 16;
        vstd::arithmetic::div_mod::lemma_fundamental_div_mod(a0, 16);
        vstd::arithmetic::div_mod::lemma_mod_bound(a0, 16);
        assert(q >= 0) by (nonlinear_arith)
            requires
                a0 >= 0,
                a0 == 16 * q + a,
                0 <= a < 16,
        ;
        assert forall|p: int| a <= p < a + l implies #[trigger] flag_at(f, p) by {
            let p2 = p + 16 * q;
            lemma_run_set(f, j, j - p2);
            vstd::arithmetic::div_mod::lemma_mod_multiples_vanish(q, p, 16);
            assert(16 * q + p == p2);
        }
        assert(arc_at(f, a, l));
        assert forall|b: int| 0 <= b < 16 implies !#[trigger] arc_at(f, b, l + 1) by {
            if arc_at(f, b, l + 1) {
                let i = b + l;
                assert forall|p: int| i - (l + 1) < p <= i implies #[trigger] flag_at(f, p) by {}
                lemma_run_ge(f, i, l + 1);
                lemma_max_run_ge(f, 32, i);
            }
        }
    }
}

/// Swaps positions `a` and `b` of `s`.
pub open spec fn swap_at(s: Seq<usize>, a: int, b: int) -> Seq<usize> {
    s.update(a, s[b]).update(b, s[a])
}

/// The shuffle applied from position `i` downward: the generator is stepped,
/// position `i` is swapped with the drawn position modulo `i + 1`, and the
/// shuffle continues at `i - 1` until position 1.
pub open spec fn shuffle_from(s: Seq<usize>, i: int, seed: u32) -> Seq<usize>
    decreases i,
{
    if i < 1 {
        s
    } else {
        let ns = lcg(seed);
        let j = (ns as int) % (i + 1);
        shuffle_from(swap_at(s, i, j), i - 1, ns)
    }
}

/// The identity arrangement `0, 1, ..., n - 1`.
pub open spec fn identity_seq(n: int) -> Seq<usize> {
    Seq::new(n as nat, |i: int| i as usize)
}

/// The training-set order used for tree `t` of the forest.
pub open spec fn tree_order(n: int, t: u32) -> Seq<usize> {
    shuffle_from(identity_seq(n), n - 1, lcg(t))
}

/// `s` holds each of `0 .. n` exactly once.
pub open spec fn is_permutation_of_range(s: Seq<usize>, n: int) -> bool {
    &&& s.len() == n
    &&& forall|i: int| 0 <= i < n ==> #[trigger] s[i] < n
    &&& forall|i: int, j: int| 0 <= i < j < n ==> #[trigger] s[i] != #[trigger] s[j]
}

proof fn lemma_swap_keeps_permutation(s: Seq<usize>, n: int, a: int, b: int)
    requires
        is_permutation_of_range(s, n),
        0 <= a < n,
        0 <= b < n,
    ensures
        is_permutation_of_range(swap_at(s, a, b), n),
{
    let t = swap_at(s, a, b);
    assert forall|i: int, j: int| 0 <= i < j < n implies #[trigger] t[i] != #[trigger] t[j] by {
        let si = if i == b { a } else if i == a { b } else { i };
        let sj = if j == b { a } else if j == a { b } else { j };
        assert(t[i] == s[si]);
        assert(t[j] == s[sj]);
        if si < sj {
            assert(s[si] != s[sj]);
        } else {
            assert(s[sj] != s[si]);
        }
    }
}

/// Shuffling by swaps keeps a permutation a permutation.
pub proof fn lemma_tree_order_is_permutation(n: int, t: u32)
    requires
        0 <= n <= usize::MAX,
    ensures
        is_permutation_of_range(tree_order(n, t), n),
{
    let id = identity_seq(n);
    assert forall|i: int| 0 <= i < n implies #[trigger] id[i] < n by {}
    assert forall|i: int, j: int| 0 <= i < j < n implies #[trigger] id[i] != #[trigger] id[j] by {}
    assert(is_permutation_of_range(id, n));
    lemma_shuffle_permutation(id, n, n - 1, lcg(t));
}

proof fn lemma_shuffle_permutation(s: Seq<usize>, n: int, i: int, seed: u32)
    requires
        is_permutation_of_range(s, n),
        i < n,
    ensures
        is_permutation_of_range(shuffle_from(s, i, seed), n),
    decreases i,
{
    if i >= 1 {
        let ns = lcg(seed);
        let j = (ns as int) % (i + 1);
        lemma_swap_keeps_permutation(s, n, i, j);
        lemma_shuffle_permutation(swap_at(s, i, j), n, i - 1, ns);
    }
}

/// The order in which tree `t` receives the `n` training descriptors: the
/// identity order shuffled by the 32-bit generator seeded from `t`.
pub fn tree_permutation(n: usize, t: u32) -> (order: Vec<usize>)
    ensures
        order@ == tree_order(n as int, t),
        is_permutation_of_range(order@, n as int),
{
    let mut indices: Vec<usize> = Vec::new();
    let mut k: usize = 0;
    while k < n
        invariant
            k <= n,
            indices@ == identity_seq(k as int),
        decreases n - k,
    {
        indices.push(k);
        proof {
            assert(indices@ =~= identity_seq(k as int + 1));
        }
        k = k + 1;
    }
    let mut seed = lcg_step(t);
    proof {
        assert(identity_seq(0) =~= Seq::<usize>::empty());
    }
    if n > 1 {
        let mut i: usize = n - 1;
        while i >= 1
            invariant
                n > 1,
                i < n,
                indices.len() == n,
                shuffle_from(indices@, i as int, seed) == tree_order(n as int, t),
            decreases i,
        {
            let ghost before = indices@;
            let ghost old_seed = seed;
            seed = lcg_step(seed);
            let j = (seed as usize) % (i + 1);
            let a = indices[i];
            let b = indices[j];
            indices.set(i, b);
            indices.set(j, a);
            proof {
                assert(indices@ =~= swap_at(before, i as int, j as int));
                assert(shuffle_from(before, i as int, old_seed) == shuffle_from(
                    swap_at(before, i as int, j as int),
                    i - 1,
                    seed,
                ));
            }
            i = i - 1;
        }
    }
    proof {
        lemma_tree_order_is_permutation(n as int, t);
    }
    indices
}

} // verus!
