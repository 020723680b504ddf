//! Intensity histograms: per-channel bin counts and their cumulative sums.
use vstd::prelude::*;
use crate::error::IrisError;

verus! {

/// Number of positions `i` in `lo .. hi` where `s[i]` is `b`.
pub open spec fn count_in(s: Seq<u8>, lo: int, hi: int, b: int) -> nat
    decreases hi - lo,
{
    if hi <= lo {
        0
    } else {
        count_in(s, lo, hi - 1, b) + if s[hi - 1] == b { 1nat } else { 0nat }
    }
}

/// Sum of the first `k` entries of `h`.
pub open spec fn sum_bins(h: Seq<u32>, k: int) -> int
    decreases k,
{
    if k <= 0 {
        0
    } else {
        sum_bins(h, k - 1) + h[k - 1]
    }
}

/// Sum over the bins `0 .. k` of the counts of `s[lo .. hi]`.
pub open spec fn sum_counts(s: Seq<u8>, lo: int, hi: int, k: int) -> int
    decreases k,
{
    if k <= 0 {
        0
    } else {
        sum_counts(s, lo, hi, k - 1) + count_in(s, lo, hi, k - 1)
    }
}

proof fn lemma_count_bound(s: Seq<u8>, lo: int, hi: int, b: int)
    requires
        lo <= hi,
    ensures
        count_in(s, lo, hi, b) <= hi - lo,
    decreases hi - lo,
{
    if hi > lo {
        lemma_count_bound(s, lo, hi - 1, b);
    }
}

proof fn lemma_sum_counts_step(s: Seq<u8>, lo: int, hi: int, k: int)
    requires
        lo <= hi,
        0 <= k,
    ensures
        sum_counts(s, lo, hi + 1, k) == sum_counts(s, lo, hi, k) + if s[hi] < k { 1int } else { 0int },
    decreases k,
{
    if k > 0 {
        lemma_sum_counts_step(s, lo, hi, k - 1);
    }
}

/// Every element of `s[lo .. hi]` falls in exactly one of the 256 bins.
proof fn lemma_sum_counts_total(s: Seq<u8>, lo: int, hi: int)
    requires
        lo <= hi,
    ensures
        sum_counts(s, lo, hi, 256) == hi - lo,
    decreases hi - lo,
{
    if hi == lo {
        lemma_sum_counts_zero(s, lo, 256);
    } else {
        lemma_sum_counts_total(s, lo, hi - 1);
        lemma_sum_counts_step(s, lo, hi - 1, 256);
    }
}

proof fn lemma_sum_counts_zero(s: Seq<u8>, lo: int, k: int)
    requires
        0 <= k,
    ensures
        sum_counts(s, lo, lo, k) == 0,
    decreases k,
{
    if k > 0 {
        lemma_sum_counts_zero(s, lo, k - 1);
    }
}

proof fn lemma_sum_bins_counts(h: Seq<u32>, s: Seq<u8>, lo: int, hi: int, k: int)
    requires
        0 <= k <= h.len(),
        forall|b: int| 0 <= b < k ==> #[trigger] h[b] == count_in(s, lo, hi, b),
    ensures
        sum_bins(h, k) == sum_counts(s, lo, hi, k),
    decreases k,
{
    if k > 0 {
        lemma_sum_bins_counts(h, s, lo, hi, k - 1);
    }
}

proof fn lemma_sum_bins_mono(h: Seq<u32>, i: int, j: int)
    requires
        0 <= i <= j <= h.len(),
    ensures
        sum_bins(h, i) <= sum_bins(h, j),
    decreases j - i,
{
    if i < j {
        lemma_sum_bins_mono(h, i, j - 1);
    }
}

/// Counts, for each of the `c` channels of a buffer of `plane` values per
/// channel, how many values fall in each of the 256 bins; `bins` holds the
/// bin of every value, channel by channel. Each channel's counts add up to
/// `plane`.
pub fn histogram_counts(bins: &Vec<u8>, c: usize, plane: usize) -> (hist: Vec<Vec<u32>>)
    requires
        bins.len() == c * plane,
        plane <= u32::MAX,
    ensures
        hist.len() == c,
        forall|ch: int| 0 <= ch < c ==> (#[trigger] hist@[ch]).len() == 256,
        forall|ch: int, b: int|
            0 <= ch < c && 0 <= b < 256 ==> #[trigger] hist@[ch]@[b] == count_in(bins@, ch * plane, ch * plane + plane, b),
        forall|ch: int| 0 <= ch < c ==> sum_bins(#[trigger] hist@[ch]@, 256) == plane,
{
    let mut hist: Vec<Vec<u32>> = Vec::new();
    let mut ch: usize = 0;
    while ch < c
        invariant
            ch <= c,
            bins.len() == c * plane,
            plane <= u32::MAX,
            hist.len() == ch,
            forall|k: int| 0 <= k < ch ==> (#[trigger] hist@[k]).len() == 256,
            forall|k: int, b: int|
                0 <= k < ch && 0 <= b < 256 ==> #[trigger] hist@[k]@[b] == count_in(bins@, k * plane, k * plane + plane, b),
            forall|k: int| 0 <= k < ch ==> sum_bins(#[trigger] hist@[k]@, 256) == plane,
        decreases c - ch,
    {
        proof {
            assert(ch * plane + plane <= c * plane) by (nonlinear_arith)
                requires
                    ch < c,
            ;
            assert(0 <= ch * plane) by (nonlinear_arith);
        }
        let base = ch * plane;
        let mut counts: Vec<u32> = Vec::new();
        let mut b: usize = 0;
        while b < 256
            invariant
                b <= 256,
                counts.len() == b,
                forall|q: int| 0 <= q < b ==> #[trigger] counts@[q] == 0,
            decreases 256 - b,
        {
            counts.push(0);
            b = b + 1;
        }
        let mut i: usize = 0;
        while i < plane
            invariant
                i <= plane,
                plane <= u32::MAX,
                base == ch * plane,
                base + plane <= bins.len(),
                counts.len() == 256,
                forall|q: int| 0 <= q < 256 ==> #[trigger] counts@[q] == count_in(bins@, base as int, base + i, q),
            decreases plane - i,
        {
            let v = bins[base + i] as usize;
            proof {
                lemma_count_bound(bins@, base as int, base + i, v as int);
            }
            counts.set(v, counts[v] + 1);
            i = i + 1;
        }
        proof {
            lemma_sum_bins_counts(counts@, bins@, base as int, base + plane, 256);
            lemma_sum_counts_total(bins@, base as int, base + plane);
        }
        hist.push(counts);
        ch = ch + 1;
    }
    hist
}

/// Running totals of `hist`: entry `i` is the sum of the first `i + 1` counts.
pub fn cumulative_counts(hist: &Vec<u32>) -> (cdf: Vec<u32>)
    requires
        sum_bins(hist@, hist.len() as int) <= u32::MAX,
    ensures
        cdf.len() == hist.len(),
        forall|i: int| 0 <= i < hist.len() ==> #[trigger] cdf@[i] == sum_bins(hist@, i + 1),
{
    let mut cdf: Vec<u32> = Vec::new();
    let mut sum: u32 = 0;
    let mut i: usize = 0;
    while i < hist.len()
        invariant
            i <= hist.len(),
            sum_bins(hist@, hist.len() as int) <= u32::MAX,
            sum == sum_bins(hist@, i as int),
            cdf.len() == i,
            forall|k: int| 0 <= k < i ==> #[trigger] cdf@[k] == sum_bins(hist@, k + 1),
        decreases hist.len() - i,
    {
        proof {
            lemma_sum_bins_mono(hist@, i + 1, hist.len() as int);
        }
        sum = sum + hist[i];
        cdf.push(sum);
        i = i + 1;
    }
    cdf
}

/// Total of the counts of the first `k` bins of `h` above `limit`.
pub open spec fn excess_over(h: Seq<u32>, limit: int, k: int) -> int
    decreases k,
{
    if k <= 0 {
        0
    } else {
        excess_over(h, limit, k - 1) + if h[k - 1] > limit { h[k - 1] - limit } else { 0 }
    }
}

/// Bin `i` of the 256-bin histogram `h` clipped at `limit`: the count, cut
/// down to `limit`, plus an equal share of everything cut off, and one more
/// for each of the first bins while the remainder of that share lasts.
pub open spec fn clipped_bin(h: Seq<u32>, limit: int, i: int) -> int {
    let e = excess_over(h, limit, 256);
    (if h[i] > limit { limit } else { h[i] as int }) + e / 256 + if i < e % 256 { 1int } else { 0int }
}

proof fn lemma_excess_bounds(h: Seq<u32>, limit: int, k: int)
    requires
        0 <= k <= h.len(),
        limit >= 0,
    ensures
        0 <= excess_over(h, limit, k) <= sum_bins(h, k),
        excess_over(h, limit, k) > 0 ==> limit + excess_over(h, limit, k) <= sum_bins(h, k),
    decreases k,
{
    if k > 0 {
        lemma_excess_bounds(h, limit, k - 1);
    }
}

proof fn lemma_bin_below_total(h: Seq<u32>, i: int)
    requires
        0 <= i < h.len(),
    ensures
        h[i] <= sum_bins(h, h.len() as int),
{
    lemma_sum_bins_mono(h, i, i);
    lemma_sum_bins_mono(h, 0, i);
    lemma_sum_bins_mono(h, i + 1, h.len() as int);
}

/// Clips a 256-bin histogram at `limit` and spreads what was cut off over
/// all bins: each bin becomes its count cut down to `limit`, plus the cut
/// total divided by 256, plus one for the first bins up to the remainder.
pub fn clip_histogram(hist: &Vec<u32>, limit: u32) -> (out: Vec<u32>)
    requires
        hist.len() == 256,
        sum_bins(hist@, 256) <= u32::MAX,
    ensures
        out.len() == 256,
        forall|i: int| 0 <= i < 256 ==> #[trigger] out@[i] == clipped_bin(hist@, limit as int, i),
{
    proof {
        lemma_excess_bounds(hist@, limit as int, 256);
    }
    let mut excess: u32 = 0;
    let mut i: usize = 0;
    while i < 256
        invariant
            hist.len() == 256,
            sum_bins(hist@, 256) <= u32::MAX,
            i <= 256,
            excess == excess_over(hist@, limit as int, i as int),
        decreases 256 - i,
    {
        proof {
            lemma_excess_bounds(hist@, limit as int, i + 1);
            lemma_sum_bins_mono(hist@, i + 1, 256);
        }
        if hist[i] > limit {
            excess = excess + (hist[i] - limit);
        }
        i = i + 1;
    }
    let avg = excess / 256;
    let rem = excess % 256;
    let mut out: Vec<u32> = Vec::new();
    let mut j: usize = 0;
    while j < 256
        invariant
            hist.len() == 256,
            sum_bins(hist@, 256) <= u32::MAX,
            excess == excess_over(hist@, limit as int, 256),
            limit + excess <= sum_bins(hist@, 256) || excess == 0,
            avg == excess / 256,
            rem == excess % 256,
            j <= 256,
            out.len() == j,
            forall|t: int| 0 <= t < j ==> #[trigger] out@[t] == clipped_bin(hist@, limit as int, t),
        decreases 256 - j,
    {
        proof {
            lemma_bin_below_total(hist@, j as int);
        }
        let base: u32 = if hist[j] > limit { limit } else { hist[j] };
        let extra: u32 = if (j as u32) < rem { 1 } else { 0 };
        out.push(base + avg + extra);
        j = j + 1;
    }
    out
}

proof fn lemma_clipped_prefix(h: Seq<u32>, limit: int, out: Seq<u32>, k: int)
    requires
        h.len() == 256,
        out.len() == 256,
        limit >= 0,
        0 <= k <= 256,
        forall|i: int| 0 <= i < 256 ==> #[trigger] out[i] == clipped_bin(h, limit, i),
    ensures
        sum_bins(out, k) == sum_bins(h, k) - excess_over(h, limit, k) + k * (excess_over(h, limit, 256) / 256)
            + if k < excess_over(h, limit, 256) % 256 { k } else { excess_over(h, limit, 256) % 256 },
    decreases k,
{
    let e = excess_over(h, limit, 256);
    if k > 0 {
        lemma_clipped_prefix(h, limit, out, k - 1);
        assert(k * (e / 256) == (k - 1) * (e / 256) + e / 256) by (nonlinear_arith);
        assert(out[k - 1] == clipped_bin(h, limit, k - 1));
        assert(sum_bins(out, k) == sum_bins(out, k - 1) + out[k - 1]);
        assert(sum_bins(h, k) == sum_bins(h, k - 1) + h[k - 1]);
        assert(excess_over(h, limit, k) == excess_over(h, limit, k - 1) + if h[k - 1] > limit { h[k - 1] - limit } else { 0 });
    } else {
        assert(k == 0);
        assert(k * (e / 256) == 0) by (nonlinear_arith)
            requires
                k == 0,
        ;
    }
}

/// Clipping a histogram keeps its total: what is cut off is spread back
/// over the bins.
pub proof fn law_clip_keeps_total(h: Seq<u32>, limit: u32, out: Seq<u32>)
    requires
        h.len() == 256,
        out.len() == 256,
        forall|i: int| 0 <= i < 256 ==> #[trigger] out[i] == clipped_bin(h, limit as int, i),
    ensures
        sum_bins(out, 256) == sum_bins(h, 256),
{
    lemma_clipped_prefix(h, limit as int, out, 256);
    let e = excess_over(h, limit as int, 256);
    assert(e == 256 * (e / 256) + e % 256) by {
        vstd::arithmetic::div_mod::lemma_fundamental_div_mod(e, 256);
    }
}

/// The first positive entry of `s` from position `i` on, or 0 if none is.
pub open spec fn first_positive(s: Seq<u32>, i: int) -> u32
    decreases s.len() - i,
{
    if i < 0 || i >= s.len() {
        0
    } else if s[i] > 0 {
        s[i]
    } else {
        first_positive(s, i + 1)
    }
}

/// The smallest positive entry of a running total: its first positive
/// entry, or 0 when all are zero.
pub fn first_positive_count(cdf: &Vec<u32>) -> (r: u32)
    ensures
        r == first_positive(cdf@, 0),
{
    let mut i: usize = 0;
    while i < cdf.len()
        invariant
            i <= cdf.len(),
            first_positive(cdf@, i as int) == first_positive(cdf@, 0),
        decreases cdf.len() - i,
    {
        if cdf[i] > 0 {
            return cdf[i];
        }
        i = i + 1;
    }
    0
}

/// Number of positions `i < n` whose pair of bins is `(bx, by)`.
pub open spec fn count_pairs(xs: Seq<usize>, ys: Seq<usize>, n: int, bx: int, by: int) -> nat
    decreases n,
{
    if n <= 0 {
        0
    } else {
        count_pairs(xs, ys, n - 1, bx, by) + if xs[n - 1] == bx && ys[n - 1] == by { 1nat } else { 0nat }
    }
}

proof fn lemma_pairs_bound(xs: Seq<usize>, ys: Seq<usize>, n: int, bx: int, by: int)
    requires
        0 <= n,
    ensures
        count_pairs(xs, ys, n, bx, by) <= n,
    decreases n,
{
    if n > 0 {
        lemma_pairs_bound(xs, ys, n - 1, bx, by);
    }
}

/// Checks the arguments of a joint histogram of channels `channel_x` and
/// `channel_y` of a `c`-channel image with `bins` bins per axis: no bins is
/// an invalid parameter, and a channel past the last is a dimension mismatch
/// reporting `[c]` against the channel count the request needs.
pub fn check_joint_histogram(c: usize, channel_x: usize, channel_y: usize, bins: usize) -> (r: Result<(), IrisError>)
    requires
        bins > 0 && (channel_x >= c || channel_y >= c) ==> channel_x < usize::MAX && channel_y < usize::MAX,
    ensures
        bins == 0 ==> (r matches Err(e) && (e matches IrisError::InvalidParameter(m) && m@ == "bins must be > 0"@)),
        bins > 0 && (channel_x >= c || channel_y >= c) ==> (r matches Err(e) && (e matches IrisError::DimensionMismatch {
            expected,
            actual,
        } && expected@ == seq![c] && actual@ == seq![((if channel_x >= channel_y { channel_x } else { channel_y }) + 1) as usize])),
        bins > 0 && channel_x < c && channel_y < c ==> r is Ok,
{
    if bins == 0 {
        return Err(IrisError::InvalidParameter("bins must be > 0".to_owned()));
    }
    if channel_x >= c || channel_y >= c {
        let m = if channel_x >= channel_y { channel_x } else { channel_y };
        let expected = vec![c];
        let actual = vec![m + 1];
        proof {
            assert(expected@ =~= seq![c]);
            assert(actual@ =~= seq![(m + 1) as usize]);
        }
        return Err(IrisError::DimensionMismatch { expected, actual });
    }
    Ok(())
}

/// Joint histogram of paired bins: entry `by * bins + bx` counts the
/// positions whose bins are `(bx, by)`.
pub fn joint_counts(xs: &Vec<usize>, ys: &Vec<usize>, bins: usize) -> (hist: Vec<u32>)
    requires
        xs.len() == ys.len(),
        xs.len() <= u32::MAX,
        bins * bins <= usize::MAX,
        forall|i: int| 0 <= i < xs.len() ==> #[trigger] xs@[i] < bins && ys@[i] < bins,
    ensures
        hist.len() == bins * bins,
        forall|bx: int, by: int|
            0 <= bx < bins && 0 <= by < bins ==> #[trigger] hist@[by * bins + bx] == count_pairs(xs@, ys@, xs.len() as int, bx, by),
{
    let n = bins * bins;
    let mut hist: Vec<u32> = Vec::new();
    let mut k: usize = 0;
    while k < n
        invariant
            k <= n,
            n == bins * bins,
            hist.len() == k,
            forall|q: int| 0 <= q < k ==> #[trigger] hist@[q] == 0,
        decreases n - k,
    {
        hist.push(0);
        k = k + 1;
    }
    proof {
        assert forall|bx: int, by: int| 0 <= bx < bins && 0 <= by < bins implies #[trigger] hist@[by * bins + bx]
            == count_pairs(xs@, ys@, 0, bx, by) by {
            lemma_cell_in_range(bx, by, bins as int);
        }
    }
    let mut i: usize = 0;
    while i < xs.len()
        invariant
            i <= xs.len(),
            xs.len() == ys.len(),
            xs.len() <= u32::MAX,
            n == bins * bins,
            hist.len() == n,
            forall|q: int| 0 <= q < xs.len() ==> #[trigger] xs@[q] < bins && ys@[q] < bins,
            forall|bx: int, by: int|
                0 <= bx < bins && 0 <= by < bins ==> #[trigger] hist@[by * bins + bx] == count_pairs(xs@, ys@, i as int, bx, by),
        decreases xs.len() - i,
    {
        let bx = xs[i];
        let by = ys[i];
        proof {
            assert(by * bins + bx < bins * bins) by (nonlinear_arith)
                requires
                    bx < bins,
                    by < bins,
            ;
            lemma_pairs_bound(xs@, ys@, i as int, bx as int, by as int);
        }
        let idx = by * bins + bx;
        let ghost before = hist@;
        hist.set(idx, hist[idx] + 1);
        proof {
            assert forall|qx: int, qy: int| 0 <= qx < bins && 0 <= qy < bins implies #[trigger] hist@[qy * bins + qx]
                == count_pairs(xs@, ys@, i + 1, qx, qy) by {
                lemma_cell_in_range(qx, qy, bins as int);
                if qy * bins + qx == idx {
                    lemma_cell_unique(qx, qy, bx as int, by as int, bins as int);
                } else {
                    if qx == bx && qy == by {
                        assert(false);
                    }
                }
            }
        }
        i = i + 1;
    }
    hist
}

proof fn lemma_cell_unique(x: int, y: int, x2: int, y2: int, w: int)
    requires
        0 <= x < w,
        0 <= x2 < w,
        0 <= y,
        0 <= y2,
        y * w + x == y2 * w + x2,
    ensures
        x == x2,
        y == y2,
{
    if y < y2 {
        assert(y * w + x < y2 * w + x2) by (nonlinear_arith)
            requires
                0 <= x < w,
                0 <= x2,
                y < y2,
        ;
    } else if y2 < y {
        assert(y2 * w + x2 < y * w + x) by (nonlinear_arith)
            requires
                0 <= x2 < w,
                0 <= x,
                y2 < y,
        ;
    }
}

proof fn lemma_cell_in_range(x: int, y: int, w: int)
    requires
        0 <= x < w,
        0 <= y < w,
    ensures
        0 <= y * w + x < w * w,
{
    assert(0 <= y * w + x < w * w) by (nonlinear_arith)
        requires
            0 <= x < w,
            0 <= y < w,
    ;
}

proof fn lemma_first_positive_from(s: Seq<u32>, k: int, i: int)
    requires
        0 <= k <= i < s.len(),
        s[i] > 0,
        forall|j: int| k <= j < i ==> s[j] == 0,
    ensures
        first_positive(s, k) == s[i],
    decreases i - k,
{
    if k < i {
        lemma_first_positive_from(s, k + 1, i);
    }
}

proof fn lemma_first_positive_none(s: Seq<u32>, k: int)
    requires
        0 <= k,
        forall|j: int| k <= j < s.len() ==> s[j] == 0,
    ensures
        first_positive(s, k) == 0,
    decreases s.len() - k,
{
    if k < s.len() {
        lemma_first_positive_none(s, k + 1);
    }
}

/// The smallest positive entry of a running total is its earliest positive
/// entry: 0 when all entries are 0, and otherwise `s[i]` for the least `i`
/// with `s[i] > 0`.
pub proof fn law_first_positive_is_earliest(s: Seq<u32>)
    ensures
        (forall|j: int| 0 <= j < s.len() ==> s[j] == 0) ==> first_positive(s, 0) == 0,
        forall|i: int|
            0 <= i < s.len() && #[trigger] s[i] > 0 && (forall|j: int| 0 <= j < i ==> s[j] == 0) ==> first_positive(s, 0)
                == s[i],
{
    if forall|j: int| 0 <= j < s.len() ==> s[j] == 0 {
        lemma_first_positive_none(s, 0);
    }
    assert forall|i: int|
        0 <= i < s.len() && #[trigger] s[i] > 0 && (forall|j: int| 0 <= j < i ==> s[j] == 0) implies first_positive(s, 0)
            == s[i] by {
        lemma_first_positive_from(s, 0, i);
    }
}

} // verus!
