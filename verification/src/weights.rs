//! Reading network weights out of raw bytes: the tensors of a safetensors
//! buffer and the layout of `f32` words in a flat weight stream.
use vstd::prelude::*;
use crate::detectors::WeightLoader;
use crate::error::IrisError;

verus! {

#[verifier::external_type_specification]
#[verifier::external_body]
pub struct ExSafeTensorError(safetensors::SafeTensorError);

/// One tensor of a safetensors buffer: its name, its shape and its raw data.
pub struct TensorEntry {
    pub name: String,
    pub shape: Vec<usize>,
    pub data: Vec<u8>,
}

/// A two-dimensional weight matrix: `rows * cols` four-byte words, each
/// holding one `f32` in native byte order.
pub struct WeightMatrix {
    pub name: String,
    pub rows: usize,
    pub cols: usize,
    pub words: Vec<[u8; 4]>,
}

/// Word `i` of a flat stream, or the zero word past the stream's end.
pub open spec fn word_at(data: Seq<u8>, i: int) -> Seq<u8> {
    if 4 * i + 4 <= data.len() {
        data.subrange(4 * i, 4 * i + 4)
    } else {
        seq![0u8, 0u8, 0u8, 0u8]
    }
}

/// The header length that a safetensors buffer declares in its first eight
/// bytes, little-endian.
pub open spec fn declared_header_len(b: Seq<u8>) -> int {
    b[0] as int + b[1] as int * 0x100 + b[2] as int * 0x1_0000 + b[3] as int * 0x100_0000 + b[4] as int
        * 0x1_0000_0000 + b[5] as int * 0x100_0000_0000 + b[6] as int * 0x1_0000_0000_0000 + b[7] as int
        * 0x100_0000_0000_0000
}

/// Whether byte `c` is an ASCII decimal digit.
pub open spec fn is_digit(c: u8) -> bool {
    48 <= c <= 57
}

/// Where a JSON text stands before position `j`: inside a string or not,
/// and, inside a string, right after a backslash or not.
pub open spec fn json_state(h: Seq<u8>, j: int) -> (bool, bool)
    decreases j,
{
    if j <= 0 {
        (false, false)
    } else {
        let s = json_state(h, j - 1);
        let c = h[j - 1];
        if s.0 {
            if s.1 {
                (true, false)
            } else if c == 92 {
                (true, true)
            } else if c == 34 {
                (false, false)
            } else {
                (true, false)
            }
        } else if c == 34 {
            (true, false)
        } else {
            (false, false)
        }
    }
}

/// The value of the number written in the JSON text `h` whose digits end at
/// position `j`: its run of ASCII digits outside strings (0 when `h[j]` is no
/// digit or lies inside a string).
pub open spec fn digit_run(h: Seq<u8>, j: int) -> nat
    decreases j,
{
    if j < 0 || j >= h.len() || !is_digit(h[j]) || json_state(h, j).0 {
        0
    } else {
        (if j == 0 { 0 } else { digit_run(h, j - 1) }) * 10 + (h[j] - 48) as nat
    }
}

/// Every number written in the JSON header of the buffer, outside its
/// strings, added to the header and its length field, fits in a `usize`.
/// Buffers too short to hold the header they declare have no header to look
/// at.
pub open spec fn header_numbers_fit(bytes: Seq<u8>) -> bool {
    bytes.len() >= 8 && declared_header_len(bytes) + 8 <= bytes.len() ==> {
        let n = declared_header_len(bytes);
        let h = bytes.subrange(8, 8 + n);
        forall|j: int| 0 <= j < h.len() ==> #[trigger] digit_run(h, j) + 8 + n <= usize::MAX
    }
}

/// Decides `header_numbers_fit`.
fn header_numbers_fit_exec(bytes: &[u8]) -> (b: bool)
    ensures
        b == header_numbers_fit(bytes@),
{
    if bytes.len() < 8 {
        return true;
    }
    let n: u128 = bytes[0] as u128 + bytes[1] as u128 * 0x100 + bytes[2] as u128 * 0x1_0000 + bytes[3] as u128
        * 0x100_0000 + bytes[4] as u128 * 0x1_0000_0000 + bytes[5] as u128 * 0x100_0000_0000 + bytes[6] as u128
        * 0x1_0000_0000_0000 + bytes[7] as u128 * 0x100_0000_0000_0000;
    if n + 8 > bytes.len() as u128 {
        return true;
    }
    let end = n as usize + 8;
    let ghost h = bytes@.subrange(8, end as int);
    let mut v: u128 = 0;
    let mut in_str = false;
    let mut esc = false;
    let mut j: usize = 8;
    while j < end
        invariant
            n == declared_header_len(bytes@),
            end == n + 8,
            end <= bytes.len(),
            h == bytes@.subrange(8, end as int),
            8 <= j <= end,
            v == (if j == 8 { 0 } else { digit_run(h, j - 9) }),
            (in_str, esc) == json_state(h, j - 8),
            forall|t: int| 0 <= t < j - 8 ==> #[trigger] digit_run(h, t) + 8 + n <= usize::MAX,
        decreases end - j,
    {
        let c = bytes[j];
        assert(h[j - 8] == c);
        if 48 <= c && c <= 57 && !in_str {
            v = v * 10 + (c - 48) as u128;
        } else {
            v = 0;
        }
        assert(v == digit_run(h, j - 8));
        if in_str {
            if esc {
                esc = false;
            } else if c == 92 {
                esc = true;
            } else if c == 34 {
                in_str = false;
            }
        } else if c == 34 {
            in_str = true;
        }
        assert((in_str, esc) == json_state(h, j - 7));
        if v + 8 + n > usize::MAX as u128 {
            proof {
                let t = j - 8;
                assert(0 <= t < h.len());
                assert(!(digit_run(h, t) + 8 + n <= usize::MAX));
                assert(h == bytes@.subrange(8, 8 + declared_header_len(bytes@)));
            }
            return false;
        }
        j = j + 1;
    }
    true
}

/// What `safetensors` reads from a buffer: the multiset of its tensors as
/// (name, shape, data) triples, or `None` when it refuses the buffer.
pub uninterp spec fn safetensors_parse(bytes: Seq<u8>) -> Option<vstd::multiset::Multiset<(Seq<char>, Seq<usize>, Seq<u8>)>>;

/// The (name, shape, data) triples of a list of tensors, in any order.
pub open spec fn entry_triples(s: Seq<TensorEntry>) -> vstd::multiset::Multiset<(Seq<char>, Seq<usize>, Seq<u8>)> {
    s.map_values(|e: TensorEntry| (e.name@, e.shape@, e.data@)).to_multiset()
}

/// Parses a safetensors buffer with `safetensors::SafeTensors::deserialize`
/// and lists its tensors with `SafeTensors::tensors`, copying each name,
/// shape and data slice. Whether the buffer is accepted, and which tensors
/// it holds, depend on the bytes alone and are named `safetensors_parse`;
/// the crate lists the tensors in the order of its internal hash map, so
/// only the multiset of them is tied to the bytes. Also stated is what its
/// header validation checks before it accepts a buffer: the product of a
/// tensor's dimensions fits in a `usize` (here for two-dimensional tensors).
/// The crate adds the end of the tensor data, read from the header, to the
/// header's length without a check, which overflows (a panic where overflow
/// is checked) when the header declares an end offset near the largest
/// `usize`; that offset is a JSON number of the header, outside its strings
/// (the crate reads the header as JSON and the offsets as unsigned
/// integers), so the call is made only on buffers whose header numbers leave
/// room for that sum. Names, metadata values and other strings of the header
/// are not looked at.
#[verifier::external_body]
fn deserialize_tensors(bytes: &[u8]) -> (r: Result<Vec<TensorEntry>, safetensors::SafeTensorError>)
    requires
        header_numbers_fit(bytes@),
    ensures
        (r is Ok) == (safetensors_parse(bytes@) is Some),
        r matches Ok(v) ==> safetensors_parse(bytes@) == Some(entry_triples(v@)),
        r matches Ok(v) ==> forall|i: int|
            0 <= i < v.len() && (#[trigger] v[i]).shape.len() == 2 ==> v[i].shape[0] * v[i].shape[1]
                <= usize::MAX,
{
    let st = safetensors::SafeTensors::deserialize(bytes)?;
    let mut out = Vec::new();
    for (name, view) in st.tensors() {
        out.push(TensorEntry { name, shape: view.shape().to_vec(), data: view.data().to_vec() });
    }
    Ok(out)
}

/// The error text for a buffer that `safetensors` refuses, rendered by std's
/// `format!` from the crate's `Display` text for the error, behind a fixed
/// prefix. Only the prefix is stated.
#[verifier::external_body]
fn deserialization_failed(e: &safetensors::SafeTensorError) -> (m: String)
    ensures
        m@.len() >= 36,
        m@.subrange(0, 36) == "Safetensors deserialization failed: "@,
{
    format!("Safetensors deserialization failed: {e}")
}

/// The first `count` native-endian `f32` words of a flat byte stream: word
/// `i` is bytes `4i .. 4i + 4`, and words past the end of the stream are
/// zero; bytes past the last word that is asked for are ignored.
pub fn f32_words(data: &[u8], count: usize) -> (w: Vec<[u8; 4]>)
    ensures
        w.len() == count,
        forall|i: int| 0 <= i < count ==> (#[trigger] w@[i])@ == word_at(data@, i),
{
    let mut w: Vec<[u8; 4]> = Vec::new();
    let mut i: usize = 0;
    while i < count
        invariant
            i <= count,
            w.len() == i,
            forall|k: int| 0 <= k < i ==> (#[trigger] w@[k])@ == word_at(data@, k),
        decreases count - i,
    {
        let word: [u8; 4] = if i < data.len() / 4 {
            let b = 4 * i;
            [data[b], data[b + 1], data[b + 2], data[b + 3]]
        } else {
            [0u8, 0u8, 0u8, 0u8]
        };
        proof {
            assert(word@ =~= word_at(data@, i as int));
        }
        w.push(word);
        i = i + 1;
    }
    w
}

/// The entries of `s` whose shape has two dimensions, in their order.
pub open spec fn two_d_entries(s: Seq<TensorEntry>) -> Seq<TensorEntry>
    decreases s.len(),
{
    if s.len() == 0 {
        s
    } else {
        let sub = two_d_entries(s.drop_last());
        if s.last().shape.len() == 2 {
            sub.push(s.last())
        } else {
            sub
        }
    }
}

/// `m` is the two-dimensional tensor `e` as a weight matrix: same name, its
/// two dimensions, and the first `rows * cols` words of its data.
pub open spec fn is_weight_of(m: WeightMatrix, e: TensorEntry) -> bool {
    &&& m.name@ == e.name@
    &&& m.rows == e.shape[0]
    &&& m.cols == e.shape[1]
    &&& m.words.len() == e.shape[0] * e.shape[1]
    &&& forall|k: int| 0 <= k < m.words.len() ==> (#[trigger] m.words@[k])@ == word_at(e.data@, k)
}

/// `out` holds, in order, the two-dimensional tensors of `entries` as
/// weight matrices.
pub open spec fn weights_of(entries: Seq<TensorEntry>, out: Seq<WeightMatrix>) -> bool {
    let t = two_d_entries(entries);
    &&& out.len() == t.len()
    &&& forall|j: int| 0 <= j < out.len() ==> is_weight_of(#[trigger] out[j], t[j])
}

/// The two-dimensional tensors among `entries`, in their order, each as a
/// weight matrix whose words are the first `rows * cols` words of its data.
/// Tensors of any other rank are left out.
pub fn two_dimensional_weights(entries: &Vec<TensorEntry>) -> (out: Vec<WeightMatrix>)
    requires
        forall|i: int|
            0 <= i < entries.len() && (#[trigger] entries[i]).shape.len() == 2 ==> entries[i].shape[0]
                * entries[i].shape[1] <= usize::MAX,
    ensures
        weights_of(entries@, out@),
{
    let mut out: Vec<WeightMatrix> = Vec::new();
    let mut i: usize = 0;
    while i < entries.len()
        invariant
            i <= entries.len(),
            forall|k: int|
                0 <= k < entries.len() && (#[trigger] entries[k]).shape.len() == 2 ==> entries[k].shape[0]
                    * entries[k].shape[1] <= usize::MAX,
            weights_of(entries@.subrange(0, i as int), out@),
        decreases entries.len() - i,
    {
        let ghost prefix = entries@.subrange(0, i as int + 1);
        proof {
            assert(prefix.drop_last() =~= entries@.subrange(0, i as int));
            assert(prefix.last() == entries@[i as int]);
        }
        let e = &entries[i];
        if e.shape.len() == 2 {
            let rows = e.shape[0];
            let cols = e.shape[1];
            let words = f32_words(e.data.as_slice(), rows * cols);
            let m = WeightMatrix { name: e.name.clone(), rows, cols, words };
            proof {
                assert(is_weight_of(m, entries@[i as int]));
            }
            let ghost before = out@;
            out.push(m);
            proof {
                let t = two_d_entries(prefix);
                let t0 = two_d_entries(entries@.subrange(0, i as int));
                assert(t == t0.push(entries@[i as int]));
                assert forall|j: int| 0 <= j < out.len() implies is_weight_of(#[trigger] out@[j], t[j]) by {
                    if j < before.len() {
                        assert(out@[j] == before[j]);
                        assert(t[j] == t0[j]);
                    }
                }
            }
        }
        i = i + 1;
    }
    proof {
        assert(entries@.subrange(0, entries.len() as int) =~= entries@);
    }
    out
}

impl WeightLoader {
    /// The two-dimensional weight matrices of a safetensors buffer, as
    /// `two_dimensional_weights` gives them for the tensors that `safetensors`
    /// reads from it, listed in some order; a buffer that it refuses is a
    /// model-loading error, and so is a buffer whose header declares a number
    /// too large to add to the header length (see `header_numbers_fit`),
    /// which is not handed to `safetensors` at all.
    pub fn parse_safetensors(bytes: &[u8]) -> (r: Result<Vec<WeightMatrix>, IrisError>)
        ensures
            !header_numbers_fit(bytes@) ==> r is Err,
            header_numbers_fit(bytes@) ==> (r is Ok) == (safetensors_parse(bytes@) is Some),
            r is Ok ==> exists|entries: Seq<TensorEntry>|
                safetensors_parse(bytes@) == Some(entry_triples(entries)) && #[trigger] weights_of(entries, r->Ok_0@),
            r matches Err(e) ==> (e matches IrisError::ModelLoad(m) && m@.len() >= 36 && m@.subrange(0, 36)
                == "Safetensors deserialization failed: "@),
    {
        if !header_numbers_fit_exec(bytes) {
            let m = String::from_str(
                "Safetensors deserialization failed: header declares an offset past the largest buffer size",
            );
            proof {
                reveal_strlit("Safetensors deserialization failed: header declares an offset past the largest buffer size");
                reveal_strlit("Safetensors deserialization failed: ");
                assert(m@.subrange(0, 36) =~= "Safetensors deserialization failed: "@);
            }
            return Err(IrisError::ModelLoad(m));
        }
        match deserialize_tensors(bytes) {
            Ok(entries) => {
                let res: Result<Vec<WeightMatrix>, IrisError> = Ok(two_dimensional_weights(&entries));
                proof {
                    assert(weights_of(entries@, res->Ok_0@));
                }
                res
            },
            Err(e) => Err(IrisError::ModelLoad(deserialization_failed(&e))),
        }
    }
}

} // verus!
