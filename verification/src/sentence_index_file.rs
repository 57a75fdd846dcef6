//! The sentence boundary index and its on-disk format.
//!
//! A sentence index is an ordered run of half-open row ranges
//! `(begin, end)`.  Serialized form (`sentence_index.bin`): the pairs
//! concatenated, each as two little-endian u32 words, so the file size is a
//! multiple of eight.

use vstd::prelude::*;
use vstd::bytes::{spec_u32_from_le_bytes, spec_u32_to_le_bytes, u32_from_le_bytes, u32_to_le_bytes};
use vstd::slice::slice_subrange;
use crate::FormatError;

verus! {

/// Ordered sentence spans: `(begin_row, end_row)`, half-open.
pub type SentenceIndex = Vec<(u32, u32)>;

/// Names the sentence index file within a workspace.
pub struct SentenceIndexFile {
    pub path: String,
}

/// The serialized form of a sentence index.
pub open spec fn spec_encode_sentence_index(spans: Seq<(u32, u32)>) -> Seq<u8>
    decreases spans.len(),
{
    if spans.len() == 0 {
        Seq::empty()
    } else {
        spec_encode_sentence_index(spans.drop_last()) + spec_u32_to_le_bytes(spans.last().0)
            + spec_u32_to_le_bytes(spans.last().1)
    }
}

/// The spans a serialized sentence index decodes to.
pub open spec fn spec_decode_sentence_index(bytes: Seq<u8>) -> Seq<(u32, u32)> {
    Seq::new(
        bytes.len() as nat / 8,
        |i: int|
            (
                spec_u32_from_le_bytes(bytes.subrange(8 * i, 8 * i + 4)),
                spec_u32_from_le_bytes(bytes.subrange(8 * i + 4, 8 * i + 8)),
            ),
    )
}

impl SentenceIndexFile {
    pub fn new(path: String) -> (f: SentenceIndexFile)
        ensures
            f.path@ == path@,
    {
        SentenceIndexFile { path }
    }

    /// Serializes a sentence index.
    pub fn encode(spans: &Vec<(u32, u32)>) -> (r: Vec<u8>)
        ensures
            r@ == spec_encode_sentence_index(spans@),
            r@.len() == 8 * spans@.len(),
    {
        let mut out: Vec<u8> = Vec::new();
        let mut i: usize = 0;
        proof {
            assert(spans@.take(0) =~= Seq::<(u32, u32)>::empty());
            assert(out@ =~= spec_encode_sentence_index(spans@.take(0)));
            lemma_encode_sentence_index_len(spans@.take(0));
        }
        while i < spans.len()
            invariant
                0 <= i <= spans.len(),
                out@ == spec_encode_sentence_index(spans@.take(i as int)),
                out@.len() == 8 * i,
            decreases spans.len() - i,
        {
            let (begin, end) = spans[i];
            let begin_bytes = u32_to_le_bytes(begin);
            let end_bytes = u32_to_le_bytes(end);
            let mut j: usize = 0;
            let ghost before = out@;
            while j < 4
                invariant
                    0 <= j <= 4,
                    begin_bytes@.len() == 4,
                    out@ == before + begin_bytes@.take(j as int),
                decreases 4 - j,
            {
                out.push(begin_bytes[j]);
                proof {
                    assert(begin_bytes@.take(j + 1) =~= begin_bytes@.take(j as int).push(
                        begin_bytes@[j as int],
                    ));
                }
                j += 1;
            }
            proof {
                assert(begin_bytes@.take(4) =~= begin_bytes@);
            }
            let ghost before2 = out@;
            let mut j: usize = 0;
            while j < 4
                invariant
                    0 <= j <= 4,
                    end_bytes@.len() == 4,
                    out@ == before2 + end_bytes@.take(j as int),
                decreases 4 - j,
            {
                out.push(end_bytes[j]);
                proof {
                    assert(end_bytes@.take(j + 1) =~= end_bytes@.take(j as int).push(
                        end_bytes@[j as int],
                    ));
                }
                j += 1;
            }
            proof {
                assert(end_bytes@.take(4) =~= end_bytes@);
                assert(spans@.take(i + 1).drop_last() =~= spans@.take(i as int));
                assert(spans@.take(i + 1).last() == spans@[i as int]);
            }
            i += 1;
        }
        proof {
            assert(spans@.take(spans@.len() as int) =~= spans@);
        }
        out
    }

    /// Deserializes a sentence index, rejecting a buffer whose size is not a
    /// multiple of eight.
    pub fn decode(bytes: &[u8]) -> (r: Result<Vec<(u32, u32)>, FormatError>)
        ensures
            r is Ok <==> bytes@.len() % 8 == 0,
            r matches Ok(v) ==> v@ == spec_decode_sentence_index(bytes@),
            r matches Err(e) ==> e == FormatError::LengthMismatch,
    {
        if bytes.len() % 8 != 0 {
            return Err(FormatError::LengthMismatch);
        }
        let count = bytes.len() / 8;
        let mut out: Vec<(u32, u32)> = Vec::new();
        let mut i: usize = 0;
        proof {
            assert(out@ =~= spec_decode_sentence_index(bytes@).take(0));
        }
        while i < count
            invariant
                0 <= i <= count,
                count == bytes@.len() / 8,
                bytes@.len() % 8 == 0,
                out@ == spec_decode_sentence_index(bytes@).take(i as int),
                out@.len() == i,
            decreases count - i,
        {
            let begin = u32_from_le_bytes(slice_subrange(bytes, 8 * i, 8 * i + 4));
            let end = u32_from_le_bytes(slice_subrange(bytes, 8 * i + 4, 8 * i + 8));
            out.push((begin, end));
            proof {
                assert(out@ =~= spec_decode_sentence_index(bytes@).take(i + 1));
            }
            i += 1;
        }
        proof {
            assert(spec_decode_sentence_index(bytes@).take(count as int) =~= spec_decode_sentence_index(bytes@));
        }
        Ok(out)
    }
}

proof fn lemma_encode_sentence_index_len(spans: Seq<(u32, u32)>)
    ensures
        spec_encode_sentence_index(spans).len() == 8 * spans.len(),
    decreases spans.len(),
{
    vstd::bytes::lemma_auto_spec_u32_to_from_le_bytes();
    if spans.len() > 0 {
        lemma_encode_sentence_index_len(spans.drop_last());
    }
}

/// Law: decoding a serialized sentence index gives back the spans.
pub proof fn lemma_sentence_index_round_trip(spans: Seq<(u32, u32)>)
    ensures
        spec_encode_sentence_index(spans).len() % 8 == 0,
        spec_decode_sentence_index(spec_encode_sentence_index(spans)) == spans,
    decreases spans.len(),
{
    lemma_encode_sentence_index_len(spans);
    vstd::bytes::lemma_auto_spec_u32_to_from_le_bytes();
    if spans.len() == 0 {
        assert(spec_decode_sentence_index(spec_encode_sentence_index(spans)) =~= spans);
    } else {
        lemma_sentence_index_round_trip(spans.drop_last());
        let bytes = spec_encode_sentence_index(spans);
        let prefix = spec_encode_sentence_index(spans.drop_last());
        lemma_encode_sentence_index_len(spans.drop_last());
        assert forall|i: int| 0 <= i < spans.len() implies spec_decode_sentence_index(bytes)[i]
            == spans[i] by {
            if i < spans.len() - 1 {
                assert(bytes.subrange(8 * i, 8 * i + 4) =~= prefix.subrange(8 * i, 8 * i + 4));
                assert(bytes.subrange(8 * i + 4, 8 * i + 8) =~= prefix.subrange(
                    8 * i + 4,
                    8 * i + 8,
                ));
                assert(spec_decode_sentence_index(prefix)[i] == spans.drop_last()[i]);
            } else {
                assert(bytes.subrange(8 * i, 8 * i + 4) =~= spec_u32_to_le_bytes(spans.last().0));
                assert(bytes.subrange(8 * i + 4, 8 * i + 8) =~= spec_u32_to_le_bytes(
                    spans.last().1,
                ));
            }
        }
        assert(spec_decode_sentence_index(bytes) =~= spans);
    }
}

} // verus!
