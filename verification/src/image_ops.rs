//! Shape bookkeeping of the image operations: which inputs are rejected and
//! what shape and source indices the results have.
use vstd::prelude::*;
use crate::error::IrisError;

verus! {

/// Source rows (or columns) read by nearest-neighbour resizing from `old_len`
/// to `new_len`: position `i` reads `i * old_len / new_len`.
pub fn nearest_indices(new_len: usize, old_len: usize) -> (idx: Vec<usize>)
    requires
        new_len > 0,
        new_len * old_len <= usize::MAX,
    ensures
        idx.len() == new_len,
        forall|i: int| 0 <= i < new_len ==> #[trigger] idx@[i] == i * old_len / (new_len as int),
        forall|i: int| 0 <= i < new_len ==> (old_len > 0 ==> #[trigger] idx@[i] < old_len),
{
    let mut idx: Vec<usize> = Vec::new();
    let mut i: usize = 0;
    while i < new_len
        invariant
            i <= new_len,
            new_len > 0,
            new_len * old_len <= usize::MAX,
            idx.len() == i,
            forall|t: int| 0 <= t < i ==> #[trigger] idx@[t] == t * old_len / (new_len as int),
            forall|t: int| 0 <= t < i ==> (old_len > 0 ==> #[trigger] idx@[t] < old_len),
        decreases new_len - i,
    {
        proof {
            assert(i * old_len <= new_len * old_len) by (nonlinear_arith)
                requires
                    i <= new_len,
            ;
            assert(i * old_len / (new_len as int) < old_len || old_len == 0) by (nonlinear_arith)
                requires
                    i < new_len,
                    new_len > 0,
            ;
        }
        idx.push(i * old_len / new_len);
        i = i + 1;
    }
    idx
}

/// Row and column sources for resizing an `h` by `w` image to `new_height`
/// by `new_width`; zero target sizes are rejected.
pub fn resize_plan(h: usize, w: usize, new_width: usize, new_height: usize) -> (r: Result<(Vec<usize>, Vec<usize>), IrisError>)
    requires
        new_height * h <= usize::MAX,
        new_width * w <= usize::MAX,
    ensures
        (new_width == 0 || new_height == 0) <==> r is Err,
        r matches Err(e) ==> (e matches IrisError::InvalidParameter(m) && m@ == "Dimensions must be greater than zero"@),
        r matches Ok((ys, xs)) ==> ys.len() == new_height && xs.len() == new_width && (forall|i: int|
            0 <= i < new_height ==> #[trigger] ys@[i] == i * h / (new_height as int)) && (forall|i: int|
            0 <= i < new_width ==> #[trigger] xs@[i] == i * w / (new_width as int)),
{
    if new_width == 0 || new_height == 0 {
        return Err(IrisError::InvalidParameter("Dimensions must be greater than zero".to_owned()));
    }
    let ys = nearest_indices(new_height, h);
    let xs = nearest_indices(new_width, w);
    Ok((ys, xs))
}

/// Shape of the `width` by `height` crop at `(x, y)` of a `c` x `h` x `w`
/// image; a region reaching outside the image is rejected.
pub fn crop_shape(c: usize, h: usize, w: usize, x: usize, y: usize, width: usize, height: usize) -> (r: Result<[usize; 3], IrisError>)
    requires
        x + width <= usize::MAX,
        y + height <= usize::MAX,
    ensures
        (x + width > w || y + height > h) <==> r is Err,
        r matches Err(e) ==> (e matches IrisError::DimensionMismatch { expected, actual } && expected@
            == seq![c, height, width] && actual@ == seq![c, h, w]),
        r matches Ok(s) ==> s@ == seq![c, height, width],
{
    if x + width > w || y + height > h {
        let expected = vec![c, height, width];
        let actual = vec![c, h, w];
        proof {
            assert(expected@ =~= seq![c, height, width]);
            assert(actual@ =~= seq![c, h, w]);
        }
        return Err(IrisError::DimensionMismatch { expected, actual });
    }
    let s = [c, height, width];
    proof {
        assert(s@ =~= seq![c, height, width]);
    }
    Ok(s)
}

/// A quarter-turn rotation.
#[derive(Clone, Copy, Debug, PartialEq, Eq)]
pub enum Rotation {
    Identity,
    Clockwise90,
    Half,
    Clockwise270,
}

/// The rotation for an angle in degrees: 0 and 360 leave the image as it
/// is; 90, 180 and 270 turn it clockwise; other angles are rejected.
pub fn rotation_for(angle_degrees: u32) -> (r: Result<Rotation, IrisError>)
    ensures
        (angle_degrees == 0 || angle_degrees == 360) ==> r == Ok::<Rotation, IrisError>(Rotation::Identity),
        angle_degrees == 90 ==> r == Ok::<Rotation, IrisError>(Rotation::Clockwise90),
        angle_degrees == 180 ==> r == Ok::<Rotation, IrisError>(Rotation::Half),
        angle_degrees == 270 ==> r == Ok::<Rotation, IrisError>(Rotation::Clockwise270),
        !(angle_degrees == 0 || angle_degrees == 360 || angle_degrees == 90 || angle_degrees == 180
            || angle_degrees == 270) ==> (r matches Err(e)
            && (e matches IrisError::InvalidParameter(m) && m@ == "Only 90, 180, 270 degrees rotations are supported"@)),
{
    match angle_degrees {
        0 | 360 => Ok(Rotation::Identity),
        90 => Ok(Rotation::Clockwise90),
        180 => Ok(Rotation::Half),
        270 => Ok(Rotation::Clockwise270),
        _ => Err(IrisError::InvalidParameter("Only 90, 180, 270 degrees rotations are supported".to_owned())),
    }
}

/// Shape `[c, h, w]` after rotation: quarter turns swap height and width.
pub fn rotated_shape(shape: [usize; 3], rot: Rotation) -> (r: [usize; 3])
    ensures
        r[0] == shape[0],
        (rot == Rotation::Clockwise90 || rot == Rotation::Clockwise270) ==> r[1] == shape[2] && r[2] == shape[1],
        (rot == Rotation::Identity || rot == Rotation::Half) ==> r[1] == shape[1] && r[2] == shape[2],
{
    match rot {
        Rotation::Clockwise90 | Rotation::Clockwise270 => [shape[0], shape[2], shape[1]],
        _ => shape,
    }
}

/// How a `c`-channel image becomes grayscale: one channel is kept as it
/// is (`Ok(false)`), three or more are combined by luma weights
/// (`Ok(true)`), two are rejected.
pub fn grayscale_plan(c: usize) -> (r: Result<bool, IrisError>)
    ensures
        c == 1 ==> r == Ok::<bool, IrisError>(false),
        c >= 3 ==> r == Ok::<bool, IrisError>(true),
        (c == 0 || c == 2) ==> (r matches Err(e)
            && (e matches IrisError::Tensor(m) && m@ == "Cannot convert image with less than 3 channels to grayscale"@)),
{
    if c == 1 {
        return Ok(false);
    }
    if c < 3 {
        return Err(IrisError::Tensor("Cannot convert image with less than 3 channels to grayscale".to_owned()));
    }
    Ok(true)
}

/// How a `c`-channel image becomes RGB: three channels are kept
/// (`Ok(false)`), one is replicated three times (`Ok(true)`), others are
/// rejected.
pub fn rgb_plan(c: usize) -> (r: Result<bool, IrisError>)
    ensures
        c == 3 ==> r == Ok::<bool, IrisError>(false),
        c == 1 ==> r == Ok::<bool, IrisError>(true),
        (c != 1 && c != 3) ==> (r matches Err(e)
            && (e matches IrisError::Tensor(m) && m@ == "Input image must be single-channel to convert to RGB"@)),
{
    if c == 3 {
        return Ok(false);
    }
    if c != 1 {
        return Err(IrisError::Tensor("Input image must be single-channel to convert to RGB".to_owned()));
    }
    Ok(true)
}

/// Two shapes agree, or the mismatch error that element-wise operations
/// report.
pub fn check_same_shape(a: [usize; 3], b: [usize; 3]) -> (r: Result<(), IrisError>)
    ensures
        (a == b) <==> r is Ok,
        r matches Err(e) ==> (e matches IrisError::DimensionMismatch { expected, actual } && expected@
            == a@ && actual@ == b@),
{
    if a[0] == b[0] && a[1] == b[1] && a[2] == b[2] {
        proof {
            assert(a =~= b);
        }
        return Ok(());
    }
    let expected = vec![a[0], a[1], a[2]];
    let actual = vec![b[0], b[1], b[2]];
    proof {
        assert(expected@ =~= a@);
        assert(actual@ =~= b@);
        if a == b {
            assert(a[0] == b[0]);
        }
    }
    Err(IrisError::DimensionMismatch { expected, actual })
}

/// `out` is `planes` packed into RGB triples: sample `k` of pixel `i` comes
/// from plane `sel[k]`, the planes being `n` samples long.
pub open spec fn is_packing(planes: Seq<u8>, n: int, sel: [usize; 3], out: Seq<u8>) -> bool {
    &&& out.len() == 3 * n
    &&& forall|i: int, k: int| 0 <= i < n && 0 <= k < 3 ==> #[trigger] out[3 * i + k] == planes[sel[k] * n + i]
}

/// `planes` is `packed` split into three planes of `n` samples: sample `k` of
/// pixel `i` goes to position `k * n + i`.
pub open spec fn is_unpacking(packed: Seq<u8>, n: int, planes: Seq<u8>) -> bool {
    &&& planes.len() == 3 * n
    &&& forall|i: int, k: int| 0 <= i < n && 0 <= k < 3 ==> #[trigger] planes[k * n + i] == packed[3 * i + k]
}

/// Splitting packed RGB triples back into planes gives back the three planes
/// that were packed.
pub proof fn law_unpack_undoes_pack(planes: Seq<u8>, n: int, packed: Seq<u8>, back: Seq<u8>)
    requires
        n >= 0,
        planes.len() == 3 * n,
        is_packing(planes, n, [0usize, 1usize, 2usize], packed),
        is_unpacking(packed, n, back),
    ensures
        back == planes,
{
    assert forall|j: int| 0 <= j < 3 * n implies back[j] == planes[j] by {
        let k = j / n;
        let i = j % n;
        vstd::arithmetic::div_mod::lemma_fundamental_div_mod(j, n);
        assert(0 <= i < n);
        assert(0 <= k < 3) by (nonlinear_arith)
            requires
                j == n * k + i,
                0 <= i < n,
                0 <= j < 3 * n,
        ;
        assert(k * n + i == j) by (nonlinear_arith)
            requires
                j == n * k + i,
        ;
        let sel = [0usize, 1usize, 2usize];
        assert(sel[k] == k);
        assert(back[k * n + i] == packed[3 * i + k]);
        assert(packed[3 * i + k] == planes[sel[k] * n + i]);
    }
    assert(back =~= planes);
}

/// Packs planar samples into RGB triples: pixel `i` of the result takes its
/// red, green and blue samples from planes `sel[0]`, `sel[1]` and `sel[2]`,
/// where plane `p` is `planes[p * plane_len .. (p + 1) * plane_len]`.
pub fn pack_rgb(planes: &Vec<u8>, plane_len: usize, sel: [usize; 3]) -> (out: Vec<u8>)
    requires
        forall|k: int| 0 <= k < 3 ==> sel[k] * plane_len + plane_len <= planes.len(),
    ensures
        is_packing(planes@, plane_len as int, sel, out@),
{
    let mut out: Vec<u8> = Vec::new();
    let mut i: usize = 0;
    let r0 = sel[0] * plane_len;
    let g0 = sel[1] * plane_len;
    let b0 = sel[2] * plane_len;
    while i < plane_len
        invariant
            i <= plane_len,
            r0 == sel[0] * plane_len,
            g0 == sel[1] * plane_len,
            b0 == sel[2] * plane_len,
            forall|k: int| 0 <= k < 3 ==> sel[k] * plane_len + plane_len <= planes.len(),
            out.len() == 3 * i,
            forall|t: int, k: int|
                0 <= t < i && 0 <= k < 3 ==> #[trigger] out@[3 * t + k] == planes@[sel[k] * plane_len + t],
        decreases plane_len - i,
    {
        proof {
            assert(sel[0] * plane_len + plane_len <= planes.len());
            assert(sel[1] * plane_len + plane_len <= planes.len());
            assert(sel[2] * plane_len + plane_len <= planes.len());
        }
        let ghost before = out@;
        out.push(planes[r0 + i]);
        out.push(planes[g0 + i]);
        out.push(planes[b0 + i]);
        proof {
            assert forall|t: int, k: int| 0 <= t <= i && 0 <= k < 3 implies #[trigger] out@[3 * t + k]
                == planes@[sel[k] * plane_len + t] by {
                if t < i {
                    assert(3 * t + k < 3 * i);
                    assert(out@[3 * t + k] == before[3 * t + k]);
                } else {
                    if k == 0 {
                        assert(out@[3 * t + k] == planes@[r0 + i]);
                    } else if k == 1 {
                        assert(out@[3 * t + k] == planes@[g0 + i]);
                    } else {
                        assert(out@[3 * t + k] == planes@[b0 + i]);
                    }
                }
            }
        }
        i = i + 1;
    }
    out
}

/// Splits RGB triples into three planes: sample `k` of pixel `i` goes to
/// position `k * plane_len + i`.
pub fn unpack_rgb(packed: &Vec<u8>, plane_len: usize) -> (planes: Vec<u8>)
    requires
        packed.len() == 3 * plane_len,
    ensures
        is_unpacking(packed@, plane_len as int, planes@),
{
    let mut planes: Vec<u8> = Vec::new();
    let mut k: usize = 0;
    while k < 3
        invariant
            k <= 3,
            packed.len() == 3 * plane_len,
            planes.len() == k * plane_len,
            forall|kk: int, i: int|
                0 <= i < plane_len && 0 <= kk < k ==> #[trigger] planes@[kk * plane_len + i] == packed@[3 * i + kk],
        decreases 3 - k,
    {
        let mut i: usize = 0;
        while i < plane_len
            invariant
                k < 3,
                i <= plane_len,
                packed.len() == 3 * plane_len,
                planes.len() == k * plane_len + i,
                forall|kk: int, t: int|
                    0 <= t < plane_len && 0 <= kk < k ==> #[trigger] planes@[kk * plane_len + t] == packed@[3 * t + kk],
                forall|t: int| 0 <= t < i ==> #[trigger] planes@[k * plane_len + t] == packed@[3 * t + k],
            decreases plane_len - i,
        {
            let ghost before = planes@;
            planes.push(packed[3 * i + k]);
            proof {
                assert forall|kk: int, t: int|
                    0 <= t < plane_len && 0 <= kk < k implies #[trigger] planes@[kk * plane_len + t]
                    == packed@[3 * t + kk] by {
                    assert(kk * plane_len + t < k * plane_len) by (nonlinear_arith)
                        requires
                            0 <= t < plane_len,
                            0 <= kk < k,
                    ;
                    assert(planes@[kk * plane_len + t] == before[kk * plane_len + t]);
                }
                assert forall|t: int| 0 <= t <= i implies #[trigger] planes@[k * plane_len + t] == packed@[3 * t + k] by {
                    if t < i {
                        assert(planes@[k * plane_len + t] == before[k * plane_len + t]);
                    }
                }
            }
            i = i + 1;
        }
        proof {
            assert((k + 1) * plane_len == k * plane_len + plane_len) by (nonlinear_arith);
        }
        k = k + 1;
    }
    planes
}

/// The planes that saving an image of `c` planes writes as red, green and
/// blue: the first three, with plane 0 standing in for each missing one.
pub fn save_channels(c: usize) -> (sel: [usize; 3])
    ensures
        sel[0] == 0,
        sel[1] == (if c > 1 { 1usize } else { 0usize }),
        sel[2] == (if c > 2 { 2usize } else { 0usize }),
{
    let g: usize = if c > 1 { 1 } else { 0 };
    let b: usize = if c > 2 { 2 } else { 0 };
    [0, g, b]
}

/// The planes that a window shows as red, green and blue for an image of `c`
/// planes: three planes as they are, a single plane as gray, and nothing (a
/// black frame) for any other count.
pub fn preview_channels(c: usize) -> (sel: Option<[usize; 3]>)
    ensures
        c == 3 ==> (sel matches Some(s) && s[0] == 0 && s[1] == 1 && s[2] == 2),
        c == 1 ==> (sel matches Some(s) && s[0] == 0 && s[1] == 0 && s[2] == 0),
        (c != 1 && c != 3) ==> sel is None,
{
    if c == 3 {
        Some([0, 1, 2])
    } else if c == 1 {
        Some([0, 0, 0])
    } else {
        None
    }
}

/// A bitwise operation on 8-bit samples.
#[derive(Clone, Copy, Debug, PartialEq, Eq)]
pub enum BitOp {
    And,
    Or,
    Xor,
}

/// `op` applied to the samples `a` and `b`.
pub open spec fn apply_bit_op(op: BitOp, a: u8, b: u8) -> u8 {
    match op {
        BitOp::And => a & b,
        BitOp::Or => a | b,
        BitOp::Xor => a ^ b,
    }
}

/// Combines two equally long runs of 8-bit samples position by position.
pub fn combine_bytes(a: &Vec<u8>, b: &Vec<u8>, op: BitOp) -> (out: Vec<u8>)
    requires
        a.len() == b.len(),
    ensures
        out.len() == a.len(),
        forall|i: int| 0 <= i < a.len() ==> #[trigger] out@[i] == apply_bit_op(op, a@[i], b@[i]),
{
    let mut out: Vec<u8> = Vec::new();
    let mut i: usize = 0;
    while i < a.len()
        invariant
            i <= a.len(),
            a.len() == b.len(),
            out.len() == i,
            forall|t: int| 0 <= t < i ==> #[trigger] out@[t] == apply_bit_op(op, a@[t], b@[t]),
        decreases a.len() - i,
    {
        let v = match op {
            BitOp::And => a[i] & b[i],
            BitOp::Or => a[i] | b[i],
            BitOp::Xor => a[i] ^ b[i],
        };
        out.push(v);
        i = i + 1;
    }
    out
}

/// The bitwise complement of each 8-bit sample.
pub fn invert_bytes(a: &Vec<u8>) -> (out: Vec<u8>)
    ensures
        out.len() == a.len(),
        forall|i: int| 0 <= i < a.len() ==> #[trigger] out@[i] == !a@[i],
{
    let mut out: Vec<u8> = Vec::new();
    let mut i: usize = 0;
    while i < a.len()
        invariant
            i <= a.len(),
            out.len() == i,
            forall|t: int| 0 <= t < i ==> #[trigger] out@[t] == !a@[t],
        decreases a.len() - i,
    {
        out.push(!a[i]);
        i = i + 1;
    }
    out
}

} // verus!
