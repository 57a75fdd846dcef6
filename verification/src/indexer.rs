//! The indexer: builds the columnar index from the source CSV bytes.
//!
//! The source splits into non-empty lines (rows) and each row into
//! comma-separated fields.  Per column, every field is dictionary-encoded:
//! a field already in the column's dictionary keeps its feature ID, a new
//! field is appended and takes the next ID.  Column 0 is pre-seeded with
//! the thirteen reserved sentence-delimiter strings at IDs `0..=12`, and a
//! row whose column-0 ID falls in that range closes the current sentence.
//! Rows with fewer fields than columns leave their trailing columns at
//! ID 0 without touching those columns' dictionaries.

use vstd::prelude::*;
use linked_hash_map::LinkedHashMap;
use crate::{COLS, FeatId, MAX_DELIMITER_ID};
use crate::feature_map::{map_entries, map_get, map_keys, map_len, map_insert_new, map_new};
use crate::util::{spec_split, spec_non_empty, split_bytes, filter_non_empty};

verus! {

broadcast use crate::util::lemma_vec_u8_deep_view, crate::util::lemma_vec_u32_deep_view;

/// Building the index failed; nothing useful was produced.
#[derive(Clone, Copy, Debug, PartialEq, Eq, Structural)]
pub enum IndexError {
    /// More rows than feature IDs can number.
    TooManyRows,
    /// A field longer than the 255 bytes a dictionary entry can hold.
    FeatureTooLong,
}

/// Everything one build produces: per-column dictionaries, per-column body
/// IDs, and the sentence spans.
pub struct IndexOutput {
    pub dictionaries: Vec<Vec<Vec<u8>>>,
    pub body: Vec<Vec<FeatId>>,
    pub sentence_index: Vec<(u32, u32)>,
}

/// Builds the index for a workspace.
pub struct Indexer {}

/// The thirteen reserved sentence-delimiter strings, in slot order: the
/// empty string, the UTF-8 bytes of the twelve delimiter characters'
/// strings, and `EOS`.
pub open spec fn spec_reserved() -> Seq<Seq<u8>> {
    seq![
        seq![],
        seq![227u8, 128, 130],
        seq![226u8, 151, 135],
        seq![226u8, 151, 134],
        seq![226u8, 150, 189],
        seq![226u8, 150, 188],
        seq![226u8, 150, 179],
        seq![226u8, 150, 178],
        seq![226u8, 150, 161],
        seq![226u8, 150, 160],
        seq![226u8, 151, 139],
        seq![226u8, 151, 143],
        seq![69u8, 79, 83],
    ]
}

/// The slot a reserved delimiter string sits at: each of the thirteen is
/// told apart by its length, its first byte, or its third byte.
pub open spec fn spec_reserved_slot(s: Seq<u8>) -> int {
    if s.len() == 0 {
        0
    } else if s[0] == 69 {
        12
    } else if s[1] == 128 {
        1
    } else if s[2] == 135 {
        2
    } else if s[2] == 134 {
        3
    } else if s[2] == 189 {
        4
    } else if s[2] == 188 {
        5
    } else if s[2] == 179 {
        6
    } else if s[2] == 178 {
        7
    } else if s[2] == 161 {
        8
    } else if s[2] == 160 {
        9
    } else if s[2] == 139 {
        10
    } else {
        11
    }
}

/// Law supporting delimiter reservation: the thirteen reserved strings are
/// pairwise distinct, so they occupy thirteen distinct dictionary slots.
pub proof fn lemma_reserved_distinct()
    ensures
        forall|i: int, j: int|
            0 <= i < j < spec_reserved().len() ==> spec_reserved()[i] != spec_reserved()[j],
{
    assert forall|i: int| 0 <= i < spec_reserved().len() implies spec_reserved_slot(
        #[trigger] spec_reserved()[i],
    ) == i by {
        if i == 0 {
        } else if i == 1 {
        } else if i == 2 {
        } else if i == 3 {
        } else if i == 4 {
        } else if i == 5 {
        } else if i == 6 {
        } else if i == 7 {
        } else if i == 8 {
        } else if i == 9 {
        } else if i == 10 {
        } else if i == 11 {
        } else {
        }
    }
}

/// The rows of a source: its non-empty newline-separated lines.
pub open spec fn spec_lines(src: Seq<u8>) -> Seq<Seq<u8>> {
    spec_non_empty(spec_split(src, 10))
}

/// The fields of a row: its comma-separated pieces, empty ones kept.
pub open spec fn spec_fields(line: Seq<u8>) -> Seq<Seq<u8>> {
    spec_split(line, 44)
}

/// Every field that lands in a dictionary fits its one-byte length header.
pub open spec fn spec_fields_ok(lines: Seq<Seq<u8>>) -> bool {
    forall|li: int, c: int|
        0 <= li < lines.len() && 0 <= c < COLS && c < spec_fields(lines[li]).len() ==> (
        #[trigger] spec_fields(lines[li])[c]).len() <= 255
}

/// The ID a field takes in a dictionary: its first slot if present, the
/// next fresh slot (the dictionary's size) if not.
pub open spec fn spec_dict_id(dict: Seq<Seq<u8>>, f: Seq<u8>) -> int
    decreases dict.len(),
{
    if dict.len() == 0 {
        0
    } else if dict.first() == f {
        0
    } else {
        1 + spec_dict_id(dict.drop_first(), f)
    }
}

/// The dictionary after meeting a field: unchanged if present, extended by
/// the field if new.
pub open spec fn spec_dict_insert(dict: Seq<Seq<u8>>, f: Seq<u8>) -> Seq<Seq<u8>> {
    if spec_dict_id(dict, f) == dict.len() {
        dict.push(f)
    } else {
        dict
    }
}

pub proof fn lemma_dict_id_bounds(dict: Seq<Seq<u8>>, f: Seq<u8>)
    ensures
        0 <= spec_dict_id(dict, f) <= dict.len(),
        spec_dict_id(dict, f) < dict.len() ==> dict[spec_dict_id(dict, f)] == f,
        forall|j: int| 0 <= j < spec_dict_id(dict, f) ==> dict[j] != f,
    decreases dict.len(),
{
    if dict.len() > 0 && dict.first() != f {
        lemma_dict_id_bounds(dict.drop_first(), f);
        assert forall|j: int| 0 <= j < spec_dict_id(dict, f) implies dict[j] != f by {
            if j > 0 {
                assert(dict.drop_first()[j - 1] != f);
            }
        }
    }
}

/// In a dictionary with distinct entries, the ID of a stored entry is its
/// slot.
pub proof fn lemma_dict_id_member(dict: Seq<Seq<u8>>, f: Seq<u8>, i: int)
    requires
        0 <= i < dict.len(),
        dict[i] == f,
        forall|a: int, b: int| 0 <= a < b < dict.len() ==> dict[a] != dict[b],
    ensures
        spec_dict_id(dict, f) == i,
{
    lemma_dict_id_bounds(dict, f);
    let id = spec_dict_id(dict, f);
    if id < i {
        assert(dict[id] == dict[i]);
    }
    if id > i {
        assert(dict[i] != f);
    }
}

/// A field held by no slot takes the fresh ID.
pub proof fn lemma_dict_id_absent(dict: Seq<Seq<u8>>, f: Seq<u8>)
    requires
        forall|j: int| 0 <= j < dict.len() ==> dict[j] != f,
    ensures
        spec_dict_id(dict, f) == dict.len(),
{
    lemma_dict_id_bounds(dict, f);
    let id = spec_dict_id(dict, f);
    if id < dict.len() {
        assert(dict[id] == f);
    }
}

/// What a column's dictionary starts from: the reserved delimiters at
/// column 0, nothing elsewhere.
pub open spec fn spec_column_init(c: int) -> Seq<Seq<u8>> {
    if c == 0 {
        spec_reserved()
    } else {
        Seq::empty()
    }
}

/// One column's dictionary and body after indexing a run of rows: fold the
/// rows in order, encoding each row's field at this column (or ID 0 when
/// the row is short).
pub open spec fn spec_column_fold(init: Seq<Seq<u8>>, lines: Seq<Seq<u8>>, c: int) -> (
    Seq<Seq<u8>>,
    Seq<u32>,
)
    decreases lines.len(),
{
    if lines.len() == 0 {
        (init, Seq::empty())
    } else {
        let prev = spec_column_fold(init, lines.drop_last(), c);
        let fields = spec_fields(lines.last());
        if 0 <= c < fields.len() {
            (
                spec_dict_insert(prev.0, fields[c]),
                prev.1.push(spec_dict_id(prev.0, fields[c]) as u32),
            )
        } else {
            (prev.0, prev.1.push(0u32))
        }
    }
}

/// Column `c`'s finished dictionary.
pub open spec fn spec_dictionary_of(lines: Seq<Seq<u8>>, c: int) -> Seq<Seq<u8>> {
    spec_column_fold(spec_column_init(c), lines, c).0
}

/// Column `c`'s finished body: one feature ID per row.
pub open spec fn spec_body_of(lines: Seq<Seq<u8>>, c: int) -> Seq<u32> {
    spec_column_fold(spec_column_init(c), lines, c).1
}

/// The sentence spans and the open sentence's head after scanning a run of
/// column-0 IDs: a delimiter ID closes the sentence through its own row.
pub open spec fn spec_spans_fold(body0: Seq<u32>) -> (Seq<(u32, u32)>, u32)
    decreases body0.len(),
{
    if body0.len() == 0 {
        (Seq::empty(), 0u32)
    } else {
        let prev = spec_spans_fold(body0.drop_last());
        if body0.last() <= MAX_DELIMITER_ID {
            (prev.0.push((prev.1, body0.len() as u32)), body0.len() as u32)
        } else {
            prev
        }
    }
}

/// The finished sentence index of a body's column 0.
pub open spec fn spec_sentence_spans(body0: Seq<u32>) -> Seq<(u32, u32)> {
    spec_spans_fold(body0).0
}

/// A column's body carries one ID per row.
pub proof fn lemma_column_fold_ids_len(init: Seq<Seq<u8>>, lines: Seq<Seq<u8>>, c: int)
    ensures
        spec_column_fold(init, lines, c).1.len() == lines.len(),
    decreases lines.len(),
{
    if lines.len() > 0 {
        lemma_column_fold_ids_len(init, lines.drop_last(), c);
    }
}

/// Indexing only appends to a dictionary: what it starts from stays put.
proof fn lemma_fold_preserves_prefix(init: Seq<Seq<u8>>, lines: Seq<Seq<u8>>, c: int)
    ensures
        spec_column_fold(init, lines, c).0.len() >= init.len(),
        forall|i: int| 0 <= i < init.len() ==> spec_column_fold(init, lines, c).0[i] == init[i],
    decreases lines.len(),
{
    if lines.len() > 0 {
        lemma_fold_preserves_prefix(init, lines.drop_last(), c);
    }
}

/// A dictionary grows by at most one entry per row.
proof fn lemma_fold_dict_len(init: Seq<Seq<u8>>, lines: Seq<Seq<u8>>, c: int)
    ensures
        init.len() <= spec_column_fold(init, lines, c).0.len() <= init.len() + lines.len(),
    decreases lines.len(),
{
    if lines.len() > 0 {
        lemma_fold_dict_len(init, lines.drop_last(), c);
    }
}

/// Law: delimiter reservation.  Whatever the source, column 0's finished
/// dictionary holds the thirteen reserved delimiter strings at slots
/// `0..=12`, in their reserved order.
pub proof fn lemma_delimiter_reservation(lines: Seq<Seq<u8>>)
    ensures
        spec_dictionary_of(lines, 0).len() >= 13,
        forall|i: int|
            0 <= i <= 12 ==> #[trigger] spec_dictionary_of(lines, 0)[i] == spec_reserved()[i],
{
    lemma_fold_preserves_prefix(spec_reserved(), lines, 0);
}

/// Every ID a column's body holds is either a slot of the finished
/// dictionary or the placeholder 0 of a short row.
proof fn lemma_fold_ids_bounded(init: Seq<Seq<u8>>, lines: Seq<Seq<u8>>, c: int)
    ensures
        forall|r: int|
            0 <= r < spec_column_fold(init, lines, c).1.len() ==> (
            #[trigger] spec_column_fold(init, lines, c).1[r] == 0 || spec_column_fold(
                init,
                lines,
                c,
            ).1[r] < spec_column_fold(init, lines, c).0.len()),
    decreases lines.len(),
{
    if lines.len() > 0 {
        lemma_fold_ids_bounded(init, lines.drop_last(), c);
        let prev = spec_column_fold(init, lines.drop_last(), c);
        let cur = spec_column_fold(init, lines, c);
        let fields = spec_fields(lines.last());
        assert forall|r: int| 0 <= r < cur.1.len() implies (#[trigger] cur.1[r] == 0 || cur.1[r]
            < cur.0.len()) by {
            if r < prev.1.len() {
                assert(cur.1[r] == prev.1[r]);
                assert(prev.0.len() <= cur.0.len());
            } else {
                if 0 <= c < fields.len() {
                    lemma_dict_id_bounds(prev.0, fields[c as int]);
                    let id = spec_dict_id(prev.0, fields[c as int]);
                    assert(cur.1[r] == id as u32);
                    assert(id as u32 <= id);
                    assert(id < cur.0.len());
                }
            }
        }
    }
}

/// Law: body/dictionary consistency.  Every feature ID stored in a column's
/// body names a slot of that column's finished dictionary, as long as the
/// dictionary is not empty.  (A column that no row ever reaches keeps an
/// empty dictionary while short rows still store the placeholder ID 0
/// there; column 0 is never empty thanks to the reserved delimiters.)
pub proof fn lemma_body_ids_in_dictionary(lines: Seq<Seq<u8>>, c: int)
    requires
        spec_dictionary_of(lines, c).len() > 0,
    ensures
        forall|r: int|
            0 <= r < spec_body_of(lines, c).len() ==> #[trigger] spec_body_of(lines, c)[r]
                < spec_dictionary_of(lines, c).len(),
{
    lemma_fold_ids_bounded(spec_column_init(c), lines, c);
}

/// Inserting never breaks distinctness of a dictionary's entries.
proof fn lemma_fold_dict_distinct(init: Seq<Seq<u8>>, lines: Seq<Seq<u8>>, c: int)
    requires
        forall|a: int, b: int| 0 <= a < b < init.len() ==> init[a] != init[b],
    ensures
        forall|a: int, b: int|
            0 <= a < b < spec_column_fold(init, lines, c).0.len() ==> spec_column_fold(
                init,
                lines,
                c,
            ).0[a] != spec_column_fold(init, lines, c).0[b],
    decreases lines.len(),
{
    if lines.len() > 0 {
        lemma_fold_dict_distinct(init, lines.drop_last(), c);
        let prev = spec_column_fold(init, lines.drop_last(), c).0;
        let cur = spec_column_fold(init, lines, c).0;
        let fields = spec_fields(lines.last());
        if 0 <= c < fields.len() && spec_dict_id(prev, fields[c as int]) == prev.len() {
            lemma_dict_id_bounds(prev, fields[c as int]);
            assert forall|a: int, b: int| 0 <= a < b < cur.len() implies cur[a] != cur[b] by {
                if b < prev.len() {
                    assert(prev[a] != prev[b]);
                } else {
                    assert(cur[b] == fields[c as int]);
                    assert(prev[a] != fields[c as int]);
                }
            }
        }
    }
}

/// Law supporting the lookup/decode round trip: a finished dictionary never
/// holds one string in two slots.
pub proof fn lemma_dictionary_distinct(lines: Seq<Seq<u8>>, c: int)
    ensures
        forall|a: int, b: int|
            0 <= a < b < spec_dictionary_of(lines, c).len() ==> spec_dictionary_of(lines, c)[a]
                != spec_dictionary_of(lines, c)[b],
{
    if c == 0 {
        lemma_reserved_distinct();
    }
    lemma_fold_dict_distinct(spec_column_init(c), lines, c);
}

/// Law: lookup/decode round trip.  Looking up the string at any slot of a
/// finished dictionary finds that same slot: the first match of
/// `dictionary[id]` is `id` itself.
pub proof fn lemma_lookup_decode_ids(lines: Seq<Seq<u8>>, c: int, id: int)
    requires
        0 <= id < spec_dictionary_of(lines, c).len(),
    ensures
        crate::features_file::spec_is_first_match(
            spec_dictionary_of(lines, c),
            spec_dictionary_of(lines, c)[id],
            id,
        ),
{
    lemma_dictionary_distinct(lines, c);
    crate::features_file::lemma_lookup_decode_round_trip(spec_dictionary_of(lines, c), id);
}

/// Dictionary entries come from the seed or from fields, so they fit the
/// dictionary format.
proof fn lemma_fold_entries_short(init: Seq<Seq<u8>>, lines: Seq<Seq<u8>>, c: int)
    requires
        forall|i: int| 0 <= i < init.len() ==> (#[trigger] init[i]).len() <= 255,
        forall|li: int|
            0 <= li < lines.len() && c < spec_fields(lines[li]).len() ==> (#[trigger] spec_fields(
                lines[li],
            )[c]).len() <= 255,
    ensures
        forall|i: int|
            0 <= i < spec_column_fold(init, lines, c).0.len() ==> (#[trigger] spec_column_fold(
                init,
                lines,
                c,
            ).0[i]).len() <= 255,
    decreases lines.len(),
{
    if lines.len() > 0 {
        assert forall|li: int|
            0 <= li < lines.drop_last().len() && c < spec_fields(lines.drop_last()[li]).len()
            implies (#[trigger] spec_fields(lines.drop_last()[li])[c]).len() <= 255 by {
            assert(lines.drop_last()[li] == lines[li]);
            assert(spec_fields(lines[li])[c].len() <= 255);
        }
        lemma_fold_entries_short(init, lines.drop_last(), c);
        let prev = spec_column_fold(init, lines.drop_last(), c).0;
        let cur = spec_column_fold(init, lines, c).0;
        let fields = spec_fields(lines.last());
        assert forall|i: int| 0 <= i < cur.len() implies (#[trigger] cur[i]).len() <= 255 by {
            if i < prev.len() {
                assert(prev[i].len() <= 255);
            } else {
                assert(lines.last() == lines[lines.len() - 1]);
                assert(spec_fields(lines[lines.len() - 1])[c].len() <= 255);
            }
        }
    }
}

/// Law: the indexer's dictionaries can always be serialized.  When a build
/// succeeds, every finished dictionary is well-formed for the dictionary
/// file format.
pub proof fn lemma_dictionaries_serializable(lines: Seq<Seq<u8>>, c: int)
    requires
        0 <= c < COLS,
        spec_fields_ok(lines),
        lines.len() <= u32::MAX - 13,
    ensures
        crate::features_file::wf_dictionary(spec_dictionary_of(lines, c)),
{
    lemma_fold_dict_len(spec_column_init(c), lines, c);
    assert forall|li: int|
        0 <= li < lines.len() && c < spec_fields(lines[li]).len() implies (#[trigger] spec_fields(
        lines[li],
    )[c]).len() <= 255 by {
        assert(spec_fields(lines[li])[c].len() <= 255);
    }
    if c == 0 {
        assert forall|i: int| 0 <= i < spec_reserved().len() implies (
        #[trigger] spec_reserved()[i]).len() <= 255 by {
            assert(spec_reserved_slot(spec_reserved()[i]) >= 0);
        }
    }
    lemma_fold_entries_short(spec_column_init(c), lines, c);
}

/// Law: sentence partition.  The sentence spans are contiguous half-open
/// ranges: the first starts at row 0, each next one starts where the
/// previous ended, every span is non-empty and ends at a delimiter row, and
/// none reaches past the body.  Rows after the last delimiter belong to no
/// span.
pub proof fn lemma_sentence_partition(body0: Seq<u32>)
    requires
        body0.len() <= u32::MAX,
    ensures
        ({
            let spans = spec_sentence_spans(body0);
            &&& forall|i: int| 0 <= i < spans.len() ==> (#[trigger] spans[i]).0 < spans[i].1
            &&& forall|i: int| 0 <= i < spans.len() ==> (#[trigger] spans[i]).1 <= body0.len()
            &&& (spans.len() > 0 ==> spans[0].0 == 0)
            &&& forall|i: int| 1 <= i < spans.len() ==> (#[trigger] spans[i]).0 == spans[i - 1].1
            &&& forall|i: int|
                0 <= i < spans.len() ==> body0[(#[trigger] spans[i]).1 - 1] <= MAX_DELIMITER_ID
            &&& forall|r: int|
                0 <= r < body0.len() && (#[trigger] body0[r]) <= MAX_DELIMITER_ID ==> exists|i: int|
                    0 <= i < spans.len() && (#[trigger] spans[i]).1 == r + 1
        }),
    decreases body0.len(),
{
    lemma_spans_fold_wf(body0);
}

proof fn lemma_spans_fold_wf(body0: Seq<u32>)
    requires
        body0.len() <= u32::MAX,
    ensures
        ({
            let (spans, head) = spec_spans_fold(body0);
            &&& head <= body0.len()
            &&& (spans.len() == 0 ==> head == 0)
            &&& (spans.len() > 0 ==> spans.last().1 == head)
            &&& forall|i: int| 0 <= i < spans.len() ==> (#[trigger] spans[i]).0 < spans[i].1
            &&& forall|i: int| 0 <= i < spans.len() ==> (#[trigger] spans[i]).1 <= body0.len()
            &&& (spans.len() > 0 ==> spans[0].0 == 0)
            &&& forall|i: int| 1 <= i < spans.len() ==> (#[trigger] spans[i]).0 == spans[i - 1].1
            &&& forall|i: int|
                0 <= i < spans.len() ==> body0[(#[trigger] spans[i]).1 - 1] <= MAX_DELIMITER_ID
            &&& forall|r: int|
                0 <= r < body0.len() && (#[trigger] body0[r]) <= MAX_DELIMITER_ID ==> exists|i: int|
                    0 <= i < spans.len() && (#[trigger] spans[i]).1 == r + 1
        }),
    decreases body0.len(),
{
    if body0.len() > 0 {
        lemma_spans_fold_wf(body0.drop_last());
        let (prev_spans, prev_head) = spec_spans_fold(body0.drop_last());
        let (spans, head) = spec_spans_fold(body0);
        assert forall|i: int| 0 <= i < prev_spans.len() implies body0[(
        #[trigger] prev_spans[i]).1 - 1] <= MAX_DELIMITER_ID by {
            assert(body0.drop_last()[prev_spans[i].1 - 1] <= MAX_DELIMITER_ID);
        }
        if body0.last() <= MAX_DELIMITER_ID {
            assert(spans == prev_spans.push((prev_head, body0.len() as u32)));
            assert forall|i: int| 0 <= i < spans.len() implies (#[trigger] spans[i]).0
                < spans[i].1 by {
                if i < prev_spans.len() {
                    assert(spans[i] == prev_spans[i]);
                }
            }
        }
        assert forall|r: int|
            0 <= r < body0.len() && (#[trigger] body0[r]) <= MAX_DELIMITER_ID implies exists|i: int|
                0 <= i < spans.len() && (#[trigger] spans[i]).1 == r + 1 by {
            if r < body0.len() - 1 {
                assert(body0.drop_last()[r] <= MAX_DELIMITER_ID);
                let i = choose|i: int|
                    0 <= i < prev_spans.len() && (#[trigger] prev_spans[i]).1 == r + 1;
                assert(spans[i].1 == r + 1);
            } else {
                assert(spans[spans.len() - 1].1 == r + 1);
            }
        }
    }
}

/// Law: a fresh index is consistent.  The bodies, dictionaries and
/// sentence spans that one build produces satisfy everything a query run
/// relies on, so a just-built workspace always passes the consistency
/// check.
pub proof fn lemma_index_output_consistent(lines: Seq<Seq<u8>>)
    requires
        lines.len() <= u32::MAX - 13,
    ensures
        crate::index::spec_index_consistent(
            Seq::new(COLS as nat, |c: int| spec_body_of(lines, c)),
            Seq::new(COLS as nat, |c: int| spec_dictionary_of(lines, c)),
            spec_sentence_spans(spec_body_of(lines, 0)),
        ),
{
    let cols = Seq::new(COLS as nat, |c: int| spec_body_of(lines, c));
    let feats = Seq::new(COLS as nat, |c: int| spec_dictionary_of(lines, c));
    let spans = spec_sentence_spans(spec_body_of(lines, 0));
    assert forall|c: int| 0 <= c < cols.len() implies (#[trigger] cols[c]).len()
        == cols[0].len() by {
        lemma_column_fold_ids_len(spec_column_init(c), lines, c);
        lemma_column_fold_ids_len(spec_column_init(0), lines, 0);
    }
    lemma_delimiter_reservation(lines);
    lemma_body_ids_in_dictionary(lines, 0);
    lemma_column_fold_ids_len(spec_column_init(0), lines, 0);
    lemma_sentence_partition(spec_body_of(lines, 0));
    assert forall|s: int| 0 <= s < spans.len() implies (#[trigger] spans[s]).0 <= spans[s].1
        && spans[s].1 <= cols[0].len() by {
        assert(spans[s].0 < spans[s].1);
        assert(spans[s].1 <= spec_body_of(lines, 0).len());
    }
}

fn bytes3(a: u8, b: u8, c: u8) -> (r: Vec<u8>)
    ensures
        r@ == seq![a, b, c],
{
    let mut v: Vec<u8> = Vec::new();
    v.push(a);
    v.push(b);
    v.push(c);
    proof {
        assert(v@ =~= seq![a, b, c]);
    }
    v
}

/// The reserved delimiter strings as owned byte vectors, in slot order.
fn reserved_features() -> (r: Vec<Vec<u8>>)
    ensures
        r.deep_view() == spec_reserved(),
{
    let mut out: Vec<Vec<u8>> = Vec::new();
    out.push(Vec::new());
    out.push(bytes3(227, 128, 130));
    out.push(bytes3(226, 151, 135));
    out.push(bytes3(226, 151, 134));
    out.push(bytes3(226, 150, 189));
    out.push(bytes3(226, 150, 188));
    out.push(bytes3(226, 150, 179));
    out.push(bytes3(226, 150, 178));
    out.push(bytes3(226, 150, 161));
    out.push(bytes3(226, 150, 160));
    out.push(bytes3(226, 151, 139));
    out.push(bytes3(226, 151, 143));
    out.push(bytes3(69, 79, 83));
    proof {
        assert forall|i: int| 0 <= i < 13 implies #[trigger] out.deep_view()[i] == spec_reserved()[i] by {
            assert(out.deep_view()[i] == out@[i].deep_view());
            assert(out@[i].deep_view() =~= out@[i]@);
        }
        assert(out.deep_view() =~= spec_reserved());
    }
    out
}

impl Indexer {
    pub fn new() -> Indexer {
        Indexer {}
    }

    /// Builds the whole index from the source CSV bytes.
    ///
    /// Succeeds exactly when the row count fits the feature-ID space and
    /// every field that would land in a dictionary fits the dictionary
    /// format's one-byte length header.
    pub fn execute(&self, source: &[u8]) -> (r: Result<IndexOutput, IndexError>)
        ensures
            r is Ok <==> (spec_lines(source@).len() <= u32::MAX - 13 && spec_fields_ok(
                spec_lines(source@),
            )),
            (r matches Err(e) && e == IndexError::TooManyRows) <==> spec_lines(source@).len()
                > u32::MAX - 13,
            r matches Ok(out) ==> {
                &&& out.dictionaries.deep_view().len() == COLS
                &&& out.body.deep_view().len() == COLS
                &&& forall|c: int|
                    0 <= c < COLS ==> #[trigger] out.dictionaries.deep_view()[c]
                        == spec_dictionary_of(spec_lines(source@), c)
                &&& forall|c: int|
                    0 <= c < COLS ==> #[trigger] out.body.deep_view()[c] == spec_body_of(
                        spec_lines(source@),
                        c,
                    )
                &&& out.sentence_index@ == spec_sentence_spans(spec_body_of(spec_lines(source@), 0))
            },
    {
        let parts = split_bytes(source, 10);
        let lines = filter_non_empty(parts);
        let ghost lv = spec_lines(source@);
        proof {
            assert(lines.deep_view() == lv);
            assert(lines@.len() == lv.len());
        }
        let nrows = lines.len();
        if nrows > (u32::MAX - 13) as usize {
            return Err(IndexError::TooManyRows);
        }
        // Split every row into its fields once.
        let mut fieldss: Vec<Vec<Vec<u8>>> = Vec::new();
        let mut li: usize = 0;
        while li < nrows
            invariant
                0 <= li <= nrows,
                nrows == lines@.len(),
                lv == lines.deep_view(),
                fieldss@.len() == li,
                forall|k: int|
                    0 <= k < li ==> #[trigger] fieldss.deep_view()[k] == spec_fields(lv[k]),
            decreases nrows - li,
        {
            let f = split_bytes(lines[li].as_slice(), 44);
            let ghost before = fieldss.deep_view();
            fieldss.push(f);
            proof {
                assert(lines@[li as int].deep_view() =~= lines@[li as int]@);
                assert(fieldss.deep_view()[li as int] == f.deep_view());
                assert forall|k: int|
                    0 <= k < li + 1 implies #[trigger] fieldss.deep_view()[k] == spec_fields(
                    lv[k],
                ) by {
                    if k < li {
                        assert(fieldss.deep_view()[k] == before[k]);
                    }
                }
            }
            li += 1;
        }
        // Reject any field too long for the dictionary format.
        let mut li: usize = 0;
        while li < nrows
            invariant
                0 <= li <= nrows,
                nrows == lines@.len(),
                lv == lines.deep_view(),
                fieldss@.len() == nrows,
                forall|k: int|
                    0 <= k < nrows ==> #[trigger] fieldss.deep_view()[k] == spec_fields(lv[k]),
                forall|k: int, c: int|
                    0 <= k < li && 0 <= c < COLS && c < spec_fields(lv[k]).len() ==> (
                    #[trigger] spec_fields(lv[k])[c]).len() <= 255,
            decreases nrows - li,
        {
            let fields: &Vec<Vec<u8>> = &fieldss[li];
            proof {
                assert(fieldss.deep_view()[li as int] == spec_fields(lv[li as int]));
            }
            let bound = if fields.len() < COLS {
                fields.len()
            } else {
                COLS
            };
            let mut c: usize = 0;
            while c < bound
                invariant
                    0 <= c <= bound,
                    0 <= li < nrows,
                    nrows == lines@.len(),
                    lv == lines.deep_view(),
                    fieldss@.len() == nrows,
                    fields == &fieldss@[li as int],
                    fields.deep_view() == spec_fields(lv[li as int]),
                    bound <= fields@.len(),
                    bound <= COLS,
                    fields@.len() <= bound || bound == COLS,
                    forall|d: int|
                        0 <= d < c ==> (#[trigger] spec_fields(lv[li as int])[d]).len() <= 255,
                decreases bound - c,
            {
                if fields[c].len() > 255 {
                    proof {
                        assert(spec_fields(lv[li as int])[c as int].len() > 255);
                    }
                    return Err(IndexError::FeatureTooLong);
                }
                proof {
                    assert(spec_fields(lv[li as int])[c as int] == fields@[c as int]@);
                }
                c += 1;
            }
            li += 1;
        }
        // Encode each column.
        let reserved = reserved_features();
        let mut dictionaries: Vec<Vec<Vec<u8>>> = Vec::new();
        let mut body: Vec<Vec<FeatId>> = Vec::new();
        let mut col: usize = 0;
        while col < COLS
            invariant
                0 <= col <= COLS,
                nrows == lines@.len(),
                nrows <= u32::MAX - 13,
                lv == lines.deep_view(),
                fieldss@.len() == nrows,
                forall|k: int|
                    0 <= k < nrows ==> #[trigger] fieldss.deep_view()[k] == spec_fields(lv[k]),
                reserved.deep_view() == spec_reserved(),
                dictionaries@.len() == col,
                body@.len() == col,
                forall|k: int|
                    0 <= k < col ==> #[trigger] dictionaries.deep_view()[k] == spec_dictionary_of(
                        lv,
                        k,
                    ),
                forall|k: int| 0 <= k < col ==> #[trigger] body.deep_view()[k] == spec_body_of(lv, k),
            decreases COLS - col,
        {
            let mut m: LinkedHashMap<Vec<u8>, u32> = map_new();
            let ghost mut gdict: Seq<Seq<u8>> = spec_column_init(col as int);
            if col == 0 {
                proof {
                    lemma_reserved_distinct();
                }
                let mut k: usize = 0;
                proof {
                    assert(reserved@.len() == spec_reserved().len());
                }
                while k < 13
                    invariant
                        0 <= k <= 13,
                        reserved.deep_view() == spec_reserved(),
                        reserved@.len() == 13,
                        map_entries(m).len() == k,
                        forall|i: int|
                            0 <= i < k ==> #[trigger] map_entries(m)[i] == (
                                spec_reserved()[i],
                                i as u32,
                            ),
                        forall|i: int, j: int|
                            0 <= i < j < spec_reserved().len() ==> spec_reserved()[i]
                                != spec_reserved()[j],
                    decreases 13 - k,
                {
                    let key = vstd::slice::slice_to_vec(reserved[k].as_slice());
                    proof {
                        assert(key@ == spec_reserved()[k as int]);
                        assert forall|i: int|
                            0 <= i < map_entries(m).len() implies (#[trigger] map_entries(m)[i]).0
                            != key@ by {
                            assert(map_entries(m)[i].0 == spec_reserved()[i]);
                        }
                    }
                    map_insert_new(&mut m, key, k as u32);
                    k += 1;
                }
                proof {
                    assert(gdict == spec_reserved());
                }
            }
            // Invariants tying the live map to the ghost dictionary.
            proof {
                assert(gdict.len() == map_entries(m).len());
                assert(lv.take(0) =~= Seq::<Seq<u8>>::empty());
            }
            let mut ids: Vec<FeatId> = Vec::new();
            let mut li: usize = 0;
            while li < nrows
                invariant
                    0 <= li <= nrows,
                    0 <= col < COLS,
                    nrows == lines@.len(),
                    nrows <= u32::MAX - 13,
                    lv == lines.deep_view(),
                    fieldss@.len() == nrows,
                    forall|k: int|
                        0 <= k < nrows ==> #[trigger] fieldss.deep_view()[k] == spec_fields(lv[k]),
                    gdict == spec_column_fold(spec_column_init(col as int), lv.take(li as int), col as int).0,
                    ids@ == spec_column_fold(spec_column_init(col as int), lv.take(li as int), col as int).1,
                    map_entries(m).len() == gdict.len(),
                    forall|i: int|
                        0 <= i < gdict.len() ==> #[trigger] map_entries(m)[i] == (
                            gdict[i],
                            i as u32,
                        ),
                    forall|a: int, b: int| 0 <= a < b < gdict.len() ==> gdict[a] != gdict[b],
                    gdict.len() <= spec_column_init(col as int).len() + li,
                decreases nrows - li,
            {
                let ghost prev = spec_column_fold(
                    spec_column_init(col as int),
                    lv.take(li as int),
                    col as int,
                );
                let fields: &Vec<Vec<u8>> = &fieldss[li];
                proof {
                    assert(fieldss.deep_view()[li as int] == spec_fields(lv[li as int]));
                    assert(fields.deep_view() == spec_fields(lv[li as int]));
                    assert(lv.take(li + 1).drop_last() =~= lv.take(li as int));
                    assert(lv.take(li + 1).last() == lv[li as int]);
                }
                if col < fields.len() {
                    let f: &Vec<u8> = &fields[col];
                    proof {
                        assert(f@ =~= spec_fields(lv[li as int])[col as int]);
                    }
                    match map_get(&m, f.as_slice()) {
                        Some(id) => {
                            proof {
                                let i = choose|i: int|
                                    0 <= i < map_entries(m).len() && #[trigger] map_entries(m)[i]
                                        == (f@, id);
                                assert(map_entries(m)[i] == (gdict[i], i as u32));
                                assert(gdict[i] == f@);
                                lemma_dict_id_member(gdict, f@, i);
                                assert(spec_dict_id(gdict, f@) == id);
                                assert(spec_dict_insert(gdict, f@) == gdict);
                            }
                            ids.push(id);
                        },
                        None => {
                            proof {
                                assert forall|j: int| 0 <= j < gdict.len() implies gdict[j]
                                    != f@ by {
                                    assert(map_entries(m)[j].0 != f@);
                                }
                                lemma_dict_id_absent(gdict, f@);
                            }
                            let fresh = map_len(&m);
                            let key = vstd::slice::slice_to_vec(f.as_slice());
                            map_insert_new(&mut m, key, fresh as u32);
                            ids.push(fresh as u32);
                            proof {
                                let newdict = spec_dict_insert(gdict, f@);
                                assert(newdict == gdict.push(f@));
                                assert forall|a: int, b: int|
                                    0 <= a < b < newdict.len() implies newdict[a] != newdict[b] by {
                                    if b < gdict.len() {
                                        assert(gdict[a] != gdict[b]);
                                    } else {
                                        assert(newdict[b] == f@);
                                        assert(gdict[a] != f@);
                                    }
                                }
                                gdict = newdict;
                            }
                        },
                    }
                } else {
                    proof {
                        assert(!(col < spec_fields(lv[li as int]).len()));
                    }
                    ids.push(0);
                }
                li += 1;
            }
            proof {
                assert(lv.take(nrows as int) =~= lv);
            }
            let keys = map_keys(&m);
            proof {
                assert forall|i: int| 0 <= i < gdict.len() implies keys.deep_view()[i]
                    == gdict[i] by {
                    assert(map_entries(m)[i] == (gdict[i], i as u32));
                }
                assert(keys.deep_view() =~= gdict);
            }
            let ghost dicts_before = dictionaries.deep_view();
            let ghost body_before = body.deep_view();
            dictionaries.push(keys);
            body.push(ids);
            proof {
                assert forall|k: int|
                    0 <= k < col + 1 implies #[trigger] dictionaries.deep_view()[k]
                    == spec_dictionary_of(lv, k) by {
                    if k < col {
                        assert(dictionaries.deep_view()[k] == dicts_before[k]);
                    } else {
                        assert(dictionaries.deep_view()[k] == keys.deep_view());
                    }
                }
                assert forall|k: int| 0 <= k < col + 1 implies #[trigger] body.deep_view()[k]
                    == spec_body_of(lv, k) by {
                    if k < col {
                        assert(body.deep_view()[k] == body_before[k]);
                    } else {
                        assert(body.deep_view()[k] == body@[k].deep_view());
                        assert(body@[k].deep_view() =~= body@[k]@);
                    }
                }
            }
            col += 1;
        }
        // Close sentences at delimiter rows.
        let col0: &Vec<FeatId> = &body[0];
        proof {
            assert(body.deep_view()[0] == spec_body_of(lv, 0));
            assert(col0@ == spec_body_of(lv, 0));
            lemma_column_fold_ids_len(spec_column_init(0), lv, 0);
            assert(col0@.take(0) =~= Seq::<u32>::empty());
        }
        let mut sentence_index: Vec<(u32, u32)> = Vec::new();
        let mut head: u32 = 0;
        let mut r: usize = 0;
        while r < col0.len()
            invariant
                0 <= r <= col0@.len(),
                col0@.len() == nrows,
                nrows <= u32::MAX - 13,
                sentence_index@ == spec_spans_fold(col0@.take(r as int)).0,
                head == spec_spans_fold(col0@.take(r as int)).1,
            decreases col0@.len() - r,
        {
            proof {
                assert(col0@.take(r + 1).drop_last() =~= col0@.take(r as int));
                assert(col0@.take(r + 1).last() == col0@[r as int]);
            }
            if col0[r] <= MAX_DELIMITER_ID {
                let end = (r + 1) as u32;
                sentence_index.push((head, end));
                head = end;
            }
            r += 1;
        }
        proof {
            assert(col0@.take(nrows as int) =~= col0@);
        }
        Ok(IndexOutput { dictionaries, body, sentence_index })
    }
}

} // verus!
