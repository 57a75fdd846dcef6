//! The per-column feature dictionary and its on-disk format.
//!
//! A dictionary holds the distinct feature byte strings of one column in
//! feature-ID order: entry `i` is the string that ID `i` decodes to.
//!
//! Serialized form (`features_<c>.bin`):
//!
//! ```text
//! bytes 0..4     entry count K, little endian u32
//! bytes 4..4+K   one length byte per entry
//! bytes 4+K..    the entries' bytes, concatenated in ID order
//! ```
//!
//! Entry lengths above 255 are unrepresentable in the one-byte length
//! header, so a well-formed dictionary never holds one.

use vstd::prelude::*;
use vstd::bytes::{spec_u32_from_le_bytes, spec_u32_to_le_bytes, u32_from_le_bytes, u32_to_le_bytes};
use vstd::slice::{slice_subrange, slice_to_vec};
use crate::FormatError;
use crate::util::bytes_eq;

verus! {

broadcast use crate::util::lemma_vec_u8_deep_view;

/// Names one column's dictionary file within a workspace.
pub struct FeaturesFile {
    pub path: String,
}

/// A dictionary that the one-byte length header and the u32 entry count can
/// represent.
pub open spec fn wf_dictionary(features: Seq<Seq<u8>>) -> bool {
    &&& features.len() <= u32::MAX
    &&& forall|i: int| 0 <= i < features.len() ==> (#[trigger] features[i]).len() <= 255
}

/// The length-header bytes of a dictionary: one byte per entry.
pub open spec fn spec_lengths(features: Seq<Seq<u8>>) -> Seq<u8> {
    Seq::new(features.len(), |i: int| features[i].len() as u8)
}

/// The payload of a dictionary: all entries concatenated in ID order.
pub open spec fn spec_payload(features: Seq<Seq<u8>>) -> Seq<u8>
    decreases features.len(),
{
    if features.len() == 0 {
        Seq::empty()
    } else {
        spec_payload(features.drop_last()) + features.last()
    }
}

/// The serialized form of a dictionary.
pub open spec fn spec_encode_dictionary(features: Seq<Seq<u8>>) -> Seq<u8> {
    spec_u32_to_le_bytes(features.len() as u32) + spec_lengths(features) + spec_payload(features)
}

/// Sum of a run of length bytes.
pub open spec fn sum_lengths(lengths: Seq<u8>) -> int
    decreases lengths.len(),
{
    if lengths.len() == 0 {
        0
    } else {
        sum_lengths(lengths.drop_last()) + lengths.last()
    }
}

/// Byte offset of entry `i` within the payload.
pub open spec fn spec_offset(lengths: Seq<u8>, i: int) -> int {
    sum_lengths(lengths.take(i))
}

/// The entries carved out of a payload by a run of length bytes.
pub open spec fn spec_entries(lengths: Seq<u8>, payload: Seq<u8>) -> Seq<Seq<u8>> {
    Seq::new(lengths.len(), |i: int| payload.subrange(spec_offset(lengths, i), spec_offset(lengths, i) + lengths[i]))
}

/// The entry count a serialized dictionary declares.
pub open spec fn spec_entry_count(bytes: Seq<u8>) -> int {
    spec_u32_from_le_bytes(bytes.subrange(0, 4)) as int
}

/// The length-header bytes of a serialized dictionary.
pub open spec fn spec_length_bytes(bytes: Seq<u8>) -> Seq<u8> {
    bytes.subrange(4, 4 + spec_entry_count(bytes))
}

/// The payload bytes of a serialized dictionary.
pub open spec fn spec_payload_bytes(bytes: Seq<u8>) -> Seq<u8> {
    bytes.subrange(4 + spec_entry_count(bytes), bytes.len() as int)
}

/// A buffer is a well-formed serialized dictionary: it holds its header and
/// its declared lengths add up exactly to the payload size.
pub open spec fn spec_dictionary_valid(bytes: Seq<u8>) -> bool {
    &&& bytes.len() >= 4
    &&& bytes.len() - 4 >= spec_entry_count(bytes)
    &&& sum_lengths(spec_length_bytes(bytes)) == bytes.len() - 4 - spec_entry_count(bytes)
}

/// The dictionary a well-formed buffer decodes to.
pub open spec fn spec_decode_dictionary(bytes: Seq<u8>) -> Seq<Seq<u8>> {
    spec_entries(spec_length_bytes(bytes), spec_payload_bytes(bytes))
}

/// `i` is the first slot of `features` that holds `pat`.
pub open spec fn spec_is_first_match(features: Seq<Seq<u8>>, pat: Seq<u8>, i: int) -> bool {
    &&& 0 <= i < features.len()
    &&& features[i] == pat
    &&& forall|j: int| 0 <= j < i ==> features[j] != pat
}

proof fn lemma_sum_lengths_nonneg(lengths: Seq<u8>)
    ensures
        sum_lengths(lengths) >= 0,
    decreases lengths.len(),
{
    if lengths.len() > 0 {
        lemma_sum_lengths_nonneg(lengths.drop_last());
    }
}

proof fn lemma_sum_take_succ(lengths: Seq<u8>, i: int)
    requires
        0 <= i < lengths.len(),
    ensures
        sum_lengths(lengths.take(i + 1)) == sum_lengths(lengths.take(i)) + lengths[i],
{
    assert(lengths.take(i + 1).drop_last() =~= lengths.take(i));
    assert(lengths.take(i + 1).last() == lengths[i]);
}

proof fn lemma_sum_take_le(lengths: Seq<u8>, i: int)
    requires
        0 <= i <= lengths.len(),
    ensures
        sum_lengths(lengths.take(i)) <= sum_lengths(lengths),
    decreases lengths.len() - i,
{
    if i == lengths.len() {
        assert(lengths.take(i) =~= lengths);
    } else {
        lemma_sum_take_succ(lengths, i);
        lemma_sum_take_le(lengths, i + 1);
    }
}

proof fn lemma_payload_take_succ(features: Seq<Seq<u8>>, i: int)
    requires
        0 <= i < features.len(),
    ensures
        spec_payload(features.take(i + 1)) == spec_payload(features.take(i)) + features[i],
{
    assert(features.take(i + 1).drop_last() =~= features.take(i));
    assert(features.take(i + 1).last() == features[i]);
}

impl FeaturesFile {
    pub fn new(path: String) -> (f: FeaturesFile)
        ensures
            f.path@ == path@,
    {
        FeaturesFile { path }
    }

    /// Serializes a dictionary.
    pub fn encode(features: &Vec<Vec<u8>>) -> (r: Vec<u8>)
        requires
            wf_dictionary(features.deep_view()),
        ensures
            r@ == spec_encode_dictionary(features.deep_view()),
    {
        let ghost dv = features.deep_view();
        let mut out: Vec<u8> = u32_to_le_bytes(features.len() as u32);
        let ghost header = out@;
        let mut i: usize = 0;
        while i < features.len()
            invariant
                0 <= i <= features.len(),
                dv == features.deep_view(),
                dv.len() == features.len(),
                out@ == header + spec_lengths(dv.take(i as int)),
            decreases features.len() - i,
        {
            out.push(features[i].len() as u8);
            proof {
                assert(dv[i as int] == features@[i as int].deep_view());
                assert(spec_lengths(dv.take(i + 1)) =~= spec_lengths(dv.take(i as int)).push(
                    dv[i as int].len() as u8,
                ));
            }
            i += 1;
        }
        proof {
            assert(dv.take(dv.len() as int) =~= dv);
        }
        let ghost with_lengths = out@;
        let mut i: usize = 0;
        while i < features.len()
            invariant
                0 <= i <= features.len(),
                dv == features.deep_view(),
                dv.len() == features.len(),
                out@ == with_lengths + spec_payload(dv.take(i as int)),
            decreases features.len() - i,
        {
            let feat: &Vec<u8> = &features[i];
            let ghost before = out@;
            let mut j: usize = 0;
            while j < feat.len()
                invariant
                    0 <= j <= feat.len(),
                    out@ == before + feat@.take(j as int),
                decreases feat.len() - j,
            {
                out.push(feat[j]);
                proof {
                    assert(feat@.take(j + 1) =~= feat@.take(j as int).push(feat@[j as int]));
                }
                j += 1;
            }
            proof {
                assert(feat@.take(feat@.len() as int) =~= feat@);
                assert(dv[i as int] == feat@);
                lemma_payload_take_succ(dv, i as int);
            }
            i += 1;
        }
        proof {
            assert(dv.take(dv.len() as int) =~= dv);
        }
        out
    }

    /// Deserializes a dictionary, rejecting any malformed buffer.
    pub fn decode(bytes: &[u8]) -> (r: Result<Vec<Vec<u8>>, FormatError>)
        ensures
            r is Ok <==> spec_dictionary_valid(bytes@),
            r matches Ok(f) ==> f.deep_view() == spec_decode_dictionary(bytes@),
            r matches Err(e) ==> ((e == FormatError::Truncated) <==> (bytes@.len() < 4
                || bytes@.len() - 4 < spec_entry_count(bytes@))),
    {
        if bytes.len() < 4 {
            return Err(FormatError::Truncated);
        }
        let count = u32_from_le_bytes(slice_subrange(bytes, 0, 4)) as usize;
        assert(count == spec_entry_count(bytes@));
        if bytes.len() - 4 < count {
            return Err(FormatError::Truncated);
        }
        let lengths = slice_subrange(bytes, 4, 4 + count);
        let payload = slice_subrange(bytes, 4 + count, bytes.len());
        assert(lengths@ == spec_length_bytes(bytes@));
        assert(payload@ == spec_payload_bytes(bytes@));
        let mut out: Vec<Vec<u8>> = Vec::new();
        let mut ptr: usize = 0;
        let mut i: usize = 0;
        proof {
            assert(lengths@.take(0) =~= Seq::<u8>::empty());
            assert(out.deep_view() =~= spec_entries(lengths@, payload@).take(0));
        }
        while i < count
            invariant
                0 <= i <= count,
                count == lengths@.len(),
                ptr == spec_offset(lengths@, i as int),
                ptr <= payload@.len(),
                out.deep_view() == spec_entries(lengths@, payload@).take(i as int),
                out.len() == i,
            decreases count - i,
        {
            let l = lengths[i] as usize;
            proof {
                lemma_sum_take_succ(lengths@, i as int);
            }
            if payload.len() - ptr < l {
                proof {
                    lemma_sum_take_le(lengths@, i + 1);
                }
                return Err(FormatError::LengthMismatch);
            }
            let entry = slice_to_vec(slice_subrange(payload, ptr, ptr + l));
            out.push(entry);
            proof {
                assert(out.deep_view() =~= spec_entries(lengths@, payload@).take(i + 1));
            }
            ptr = ptr + l;
            i += 1;
        }
        if ptr != payload.len() {
            proof {
                assert(lengths@.take(count as int) =~= lengths@);
            }
            return Err(FormatError::LengthMismatch);
        }
        proof {
            assert(lengths@.take(count as int) =~= lengths@);
            assert(spec_entries(lengths@, payload@).take(count as int) =~= spec_entries(
                lengths@,
                payload@,
            ));
        }
        Ok(out)
    }

    /// Finds the feature ID of a feature string: the first slot that holds
    /// it, if any.
    pub fn lookup(features: &Vec<Vec<u8>>, pat: &[u8]) -> (r: Option<usize>)
        ensures
            match r {
                Some(i) => spec_is_first_match(features.deep_view(), pat@, i as int),
                None => forall|j: int|
                    0 <= j < features.deep_view().len() ==> features.deep_view()[j] != pat@,
            },
    {
        let ghost dv = features.deep_view();
        let mut i: usize = 0;
        while i < features.len()
            invariant
                0 <= i <= features.len(),
                dv == features.deep_view(),
                dv.len() == features.len(),
                forall|j: int| 0 <= j < i ==> dv[j] != pat@,
            decreases features.len() - i,
        {
            if bytes_eq(features[i].as_slice(), pat) {
                assert(dv[i as int] == features@[i as int].deep_view());
                return Some(i);
            }
            assert(dv[i as int] == features@[i as int].deep_view());
            i += 1;
        }
        None
    }
}

/// Law: looking up the string that a feature ID decodes to finds that same
/// ID again, for every ID of a dictionary with distinct entries.
pub proof fn lemma_lookup_decode_round_trip(features: Seq<Seq<u8>>, id: int)
    requires
        0 <= id < features.len(),
        forall|i: int, j: int| 0 <= i < j < features.len() ==> features[i] != features[j],
    ensures
        spec_is_first_match(features, features[id], id),
{
    assert forall|j: int| 0 <= j < id implies features[j] != features[id] by {
        assert(features[j] != features[id]);
    }
}

/// Law: decoding a serialized dictionary gives back the dictionary.
pub proof fn lemma_dictionary_round_trip(features: Seq<Seq<u8>>)
    requires
        wf_dictionary(features),
    ensures
        spec_dictionary_valid(spec_encode_dictionary(features)),
        spec_decode_dictionary(spec_encode_dictionary(features)) == features,
{
    let bytes = spec_encode_dictionary(features);
    vstd::bytes::lemma_auto_spec_u32_to_from_le_bytes();
    assert(bytes.subrange(0, 4) =~= spec_u32_to_le_bytes(features.len() as u32));
    assert(spec_entry_count(bytes) == features.len());
    assert(spec_length_bytes(bytes) =~= spec_lengths(features));
    assert(spec_payload_bytes(bytes) =~= spec_payload(features));
    lemma_sum_of_lengths_is_payload_len(features, features.len() as int);
    assert(spec_lengths(features).take(features.len() as int) =~= spec_lengths(features));
    assert(features.take(features.len() as int) =~= features);
    assert(spec_dictionary_valid(bytes));
    assert forall|i: int| 0 <= i < features.len() implies spec_decode_dictionary(bytes)[i]
        == features[i] by {
        lemma_entry_at(features, i);
    }
    assert(spec_decode_dictionary(bytes) =~= features);
}

/// The declared lengths of the first `i` entries add up to the length of
/// their concatenated payload.
proof fn lemma_sum_of_lengths_is_payload_len(features: Seq<Seq<u8>>, i: int)
    requires
        wf_dictionary(features),
        0 <= i <= features.len(),
    ensures
        sum_lengths(spec_lengths(features).take(i)) == spec_payload(features.take(i)).len(),
        spec_payload(features.take(i)).len() >= 0,
    decreases i,
{
    if i > 0 {
        lemma_sum_of_lengths_is_payload_len(features, i - 1);
        lemma_sum_take_succ(spec_lengths(features), i - 1);
        lemma_payload_take_succ(features, i - 1);
    } else {
        assert(features.take(0) =~= Seq::<Seq<u8>>::empty());
        assert(spec_lengths(features).take(0) =~= Seq::<u8>::empty());
    }
}

/// Entry `i` of the payload is the `i`th dictionary entry.
proof fn lemma_entry_at(features: Seq<Seq<u8>>, i: int)
    requires
        wf_dictionary(features),
        0 <= i < features.len(),
    ensures
        spec_entries(spec_lengths(features), spec_payload(features))[i] == features[i],
{
    let lengths = spec_lengths(features);
    let payload = spec_payload(features);
    lemma_sum_of_lengths_is_payload_len(features, i);
    lemma_sum_of_lengths_is_payload_len(features, i + 1);
    lemma_sum_take_succ(lengths, i);
    lemma_payload_take_succ(features, i);
    lemma_payload_prefix(features, i + 1);
    assert(spec_payload(features.take(i + 1)) == spec_payload(features.take(i)) + features[i]);
    let off = spec_offset(lengths, i);
    assert(off == spec_payload(features.take(i)).len());
    lemma_payload_prefix(features, i);
    assert forall|k: int| 0 <= k < features[i].len() implies payload[off + k] == features[i][k] by {
        assert(spec_payload(features.take(i + 1))[off + k] == features[i][k]);
    }
    assert(payload.subrange(off, off + lengths[i]) =~= features[i]);
}

/// The payload of a prefix of the dictionary is a prefix of the payload.
proof fn lemma_payload_prefix(features: Seq<Seq<u8>>, i: int)
    requires
        wf_dictionary(features),
        0 <= i <= features.len(),
    ensures
        spec_payload(features.take(i)).len() <= spec_payload(features).len(),
        forall|k: int|
            0 <= k < spec_payload(features.take(i)).len() ==> spec_payload(features)[k]
                == spec_payload(features.take(i))[k],
    decreases features.len() - i,
{
    if i == features.len() {
        assert(features.take(i) =~= features);
    } else {
        lemma_payload_prefix(features, i + 1);
        lemma_payload_take_succ(features, i);
    }
}

} // verus!
