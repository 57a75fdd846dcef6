//! The columnar body of a corpus and the loaded index data.
//!
//! The body is a row-major matrix of feature IDs with [`COLS`] columns,
//! stored column by column.  On disk each column is a contiguous
//! little-endian u32 array (`body_<c>.bin`), one word per corpus row.

use vstd::prelude::*;
use vstd::bytes::{spec_u32_from_le_bytes, spec_u32_to_le_bytes, u32_from_le_bytes, u32_to_le_bytes};
use vstd::slice::slice_subrange;
use crate::{FormatError, COLS, FeatId};

verus! {

broadcast use crate::util::lemma_vec_u32_deep_view, crate::util::lemma_vec_u8_deep_view;

/// The corpus body: one feature-ID array per column, all of equal length.
pub struct BodyTable {
    pub columns: Vec<Vec<FeatId>>,
}

/// The per-column dictionaries and the sentence spans of a workspace, as
/// loaded for a query.
pub struct IndexData {
    pub features_per_column: Vec<Vec<Vec<u8>>>,
    pub sentence_index: Vec<(u32, u32)>,
}

/// A body table holds exactly [`COLS`] columns of equal length.
pub open spec fn wf_body(cols: Seq<Seq<FeatId>>) -> bool {
    &&& cols.len() == COLS
    &&& forall|c: int| 0 <= c < cols.len() ==> (#[trigger] cols[c]).len() == cols[0].len()
}

impl BodyTable {
    pub open spec fn view_cols(&self) -> Seq<Seq<FeatId>> {
        self.columns.deep_view()
    }

    /// Number of corpus rows.
    pub fn len(&self) -> (r: usize)
        requires
            wf_body(self.view_cols()),
        ensures
            r == self.view_cols()[0].len(),
    {
        self.columns[0].len()
    }

    /// The sub-table of rows `begin..end`, one sentence's slice of the body.
    pub fn slice(&self, begin: usize, end: usize) -> (r: BodyTable)
        requires
            wf_body(self.view_cols()),
            begin <= end <= self.view_cols()[0].len(),
        ensures
            wf_body(r.view_cols()),
            r.view_cols().len() == COLS,
            forall|c: int|
                0 <= c < COLS ==> #[trigger] r.view_cols()[c] == self.view_cols()[c].subrange(
                    begin as int,
                    end as int,
                ),
            r.view_cols()[0].len() == end - begin,
    {
        let mut columns: Vec<Vec<FeatId>> = Vec::new();
        let mut c: usize = 0;
        while c < COLS
            invariant
                0 <= c <= COLS,
                columns.len() == c,
                forall|k: int|
                    0 <= k < c ==> #[trigger] columns.deep_view()[k] == self.view_cols()[k].subrange(
                        begin as int,
                        end as int,
                    ),
            decreases COLS - c,
        {
            let col: &Vec<FeatId> = &self.columns[c];
            proof {
                assert(col@ == self.view_cols()[c as int]);
                assert(col@.len() == self.view_cols()[0].len());
            }
            let part = vstd::slice::slice_to_vec(slice_subrange(col.as_slice(), begin, end));
            let ghost old_cols = columns.deep_view();
            columns.push(part);
            proof {
                assert forall|k: int| 0 <= k < c + 1 implies #[trigger] columns.deep_view()[k]
                    == self.view_cols()[k].subrange(begin as int, end as int) by {
                    if k < c {
                        assert(columns.deep_view()[k] == old_cols[k]);
                    } else {
                        assert(columns.deep_view()[k] == part@);
                    }
                }
            }
            c += 1;
        }
        BodyTable { columns }
    }
}

/// The serialized form of one body column.
pub open spec fn spec_encode_column(ids: Seq<FeatId>) -> Seq<u8>
    decreases ids.len(),
{
    if ids.len() == 0 {
        Seq::empty()
    } else {
        spec_encode_column(ids.drop_last()) + spec_u32_to_le_bytes(ids.last())
    }
}

/// The feature IDs a serialized body column decodes to.
pub open spec fn spec_decode_column(bytes: Seq<u8>) -> Seq<FeatId> {
    Seq::new(bytes.len() as nat / 4, |i: int| spec_u32_from_le_bytes(bytes.subrange(4 * i, 4 * i + 4)))
}

/// Serializes one body column.
pub fn encode_column(ids: &Vec<FeatId>) -> (r: Vec<u8>)
    ensures
        r@ == spec_encode_column(ids@),
        r@.len() == 4 * ids@.len(),
{
    let mut out: Vec<u8> = Vec::new();
    let mut i: usize = 0;
    proof {
        assert(ids@.take(0) =~= Seq::<FeatId>::empty());
        assert(out@ =~= spec_encode_column(ids@.take(0)));
    }
    while i < ids.len()
        invariant
            0 <= i <= ids.len(),
            out@ == spec_encode_column(ids@.take(i as int)),
            out@.len() == 4 * i,
        decreases ids.len() - i,
    {
        let word = u32_to_le_bytes(ids[i]);
        let ghost before = out@;
        let mut j: usize = 0;
        while j < 4
            invariant
                0 <= j <= 4,
                word@.len() == 4,
                out@ == before + word@.take(j as int),
            decreases 4 - j,
        {
            out.push(word[j]);
            proof {
                assert(word@.take(j + 1) =~= word@.take(j as int).push(word@[j as int]));
            }
            j += 1;
        }
        proof {
            assert(word@.take(4) =~= word@);
            assert(ids@.take(i + 1).drop_last() =~= ids@.take(i as int));
            assert(ids@.take(i + 1).last() == ids@[i as int]);
        }
        i += 1;
    }
    proof {
        assert(ids@.take(ids@.len() as int) =~= ids@);
    }
    out
}

/// Deserializes one body column, rejecting a buffer whose size is not a
/// multiple of four.
pub fn decode_column(bytes: &[u8]) -> (r: Result<Vec<FeatId>, FormatError>)
    ensures
        r is Ok <==> bytes@.len() % 4 == 0,
        r matches Ok(v) ==> v@ == spec_decode_column(bytes@),
        r matches Err(e) ==> e == FormatError::LengthMismatch,
{
    if bytes.len() % 4 != 0 {
        return Err(FormatError::LengthMismatch);
    }
    let count = bytes.len() / 4;
    let mut out: Vec<FeatId> = Vec::new();
    let mut i: usize = 0;
    proof {
        assert(out@ =~= spec_decode_column(bytes@).take(0));
    }
    while i < count
        invariant
            0 <= i <= count,
            count == bytes@.len() / 4,
            bytes@.len() % 4 == 0,
            out@ == spec_decode_column(bytes@).take(i as int),
            out@.len() == i,
        decreases count - i,
    {
        let word = u32_from_le_bytes(slice_subrange(bytes, 4 * i, 4 * i + 4));
        out.push(word);
        proof {
            assert(out@ =~= spec_decode_column(bytes@).take(i + 1));
        }
        i += 1;
    }
    proof {
        assert(spec_decode_column(bytes@).take(count as int) =~= spec_decode_column(bytes@));
    }
    Ok(out)
}

/// Law: decoding a serialized body column gives back the IDs.
pub proof fn lemma_column_round_trip(ids: Seq<FeatId>)
    ensures
        spec_encode_column(ids).len() == 4 * ids.len(),
        spec_decode_column(spec_encode_column(ids)) == ids,
    decreases ids.len(),
{
    vstd::bytes::lemma_auto_spec_u32_to_from_le_bytes();
    if ids.len() == 0 {
        assert(spec_decode_column(spec_encode_column(ids)) =~= ids);
    } else {
        lemma_column_round_trip(ids.drop_last());
        let bytes = spec_encode_column(ids);
        let prefix = spec_encode_column(ids.drop_last());
        assert forall|i: int| 0 <= i < ids.len() implies spec_decode_column(bytes)[i] == ids[i] by {
            if i < ids.len() - 1 {
                assert(bytes.subrange(4 * i, 4 * i + 4) =~= prefix.subrange(4 * i, 4 * i + 4));
                assert(spec_decode_column(prefix)[i] == ids.drop_last()[i]);
            } else {
                assert(bytes.subrange(4 * i, 4 * i + 4) =~= spec_u32_to_le_bytes(ids.last()));
            }
        }
        assert(spec_decode_column(bytes) =~= ids);
    }
}

/// The loaded index holds one dictionary per column.
pub open spec fn wf_index_data(feats: Seq<Seq<Seq<u8>>>) -> bool {
    feats.len() == COLS
}

/// Body, dictionaries and sentence spans agree on everything a query run
/// relies on: the body is a well-formed table, every column-0 feature ID
/// decodes through column 0's dictionary (the one that match output is
/// rendered from), and every sentence span is a well-formed row range of
/// the body.  Columns that no row of the source reached keep empty
/// dictionaries beside placeholder IDs, so only column 0 — never empty
/// thanks to the reserved delimiters — is held to the decoding bound.
pub open spec fn spec_index_consistent(
    cols: Seq<Seq<FeatId>>,
    feats: Seq<Seq<Seq<u8>>>,
    spans: Seq<(u32, u32)>,
) -> bool {
    &&& wf_body(cols)
    &&& wf_index_data(feats)
    &&& forall|r: int| 0 <= r < cols[0].len() ==> (#[trigger] cols[0][r]) < feats[0].len()
    &&& forall|s: int|
        0 <= s < spans.len() ==> (#[trigger] spans[s]).0 <= spans[s].1 && spans[s].1 <= cols[0].len()
}

/// Decides [`spec_index_consistent`] for loaded data, so that a caller can
/// reject a corrupt workspace before running a query.
pub fn check_consistency(body: &BodyTable, data: &IndexData) -> (r: bool)
    ensures
        r == spec_index_consistent(
            body.view_cols(),
            data.features_per_column.deep_view(),
            data.sentence_index@,
        ),
{
    let ghost cols = body.view_cols();
    let ghost feats = data.features_per_column.deep_view();
    let ghost spans = data.sentence_index@;
    if body.columns.len() != COLS {
        return false;
    }
    if data.features_per_column.len() != COLS {
        return false;
    }
    let n = body.columns[0].len();
    let mut c: usize = 0;
    while c < COLS
        invariant
            0 <= c <= COLS,
            cols.len() == COLS,
            n == cols[0].len(),
            forall|k: int| 0 <= k < c ==> (#[trigger] cols[k]).len() == n,
        decreases COLS - c,
    {
        let col: &Vec<FeatId> = &body.columns[c];
        if col.len() != n {
            assert(cols[c as int].len() != n);
            return false;
        }
        c += 1;
    }
    let col0: &Vec<FeatId> = &body.columns[0];
    let dict_len = data.features_per_column[0].len();
    let mut r: usize = 0;
    while r < n
        invariant
            0 <= r <= n,
            col0@ == cols[0],
            n == cols[0].len(),
            dict_len == feats[0].len(),
            forall|j: int| 0 <= j < r ==> (#[trigger] cols[0][j]) < dict_len,
        decreases n - r,
    {
        if col0[r] as usize >= dict_len {
            return false;
        }
        r += 1;
    }
    let mut s: usize = 0;
    while s < data.sentence_index.len()
        invariant
            0 <= s <= spans.len(),
            n == cols[0].len(),
            forall|k: int|
                0 <= k < s ==> (#[trigger] spans[k]).0 <= spans[k].1 && spans[k].1 <= n,
        decreases spans.len() - s,
    {
        let (begin, end) = data.sentence_index[s];
        if begin > end || end as usize > n {
            return false;
        }
        s += 1;
    }
    true
}

} // verus!
