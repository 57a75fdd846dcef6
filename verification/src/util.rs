//! Small byte-sequence helpers shared by the codecs and the dictionaries.

use vstd::prelude::*;

verus! {

/// A byte vector's deep view is its view: lets contracts over nested
/// vectors line up with contracts over the inner vectors themselves.
pub broadcast proof fn lemma_vec_u8_deep_view(v: Vec<u8>)
    ensures
        #[trigger] v.deep_view() == v@,
{
    assert(v.deep_view() =~= v@);
}

/// A feature-ID vector's deep view is its view, as for byte vectors.
pub broadcast proof fn lemma_vec_u32_deep_view(v: Vec<u32>)
    ensures
        #[trigger] v.deep_view() == v@,
{
    assert(v.deep_view() =~= v@);
}

/// Compares two byte strings for equality.
pub fn bytes_eq(a: &[u8], b: &[u8]) -> (r: bool)
    ensures
        r == (a@ == b@),
{
    if a.len() != b.len() {
        assert(a@ != b@) by {
            assert(a@.len() != b@.len());
        }
        return false;
    }
    let mut i: usize = 0;
    while i < a.len()
        invariant
            0 <= i <= a.len(),
            a@.len() == b@.len(),
            forall|j: int| 0 <= j < i ==> a@[j] == b@[j],
        decreases a.len() - i,
    {
        if a[i] != b[i] {
            return false;
        }
        i += 1;
    }
    proof {
        assert(a@ =~= b@);
    }
    true
}

/// Index of the first occurrence of `sep` in `s`, or `s.len()` if none.
pub open spec fn spec_first_sep(s: Seq<u8>, sep: u8) -> int
    decreases s.len(),
{
    if s.len() == 0 {
        0
    } else if s[0] == sep {
        0
    } else {
        1 + spec_first_sep(s.drop_first(), sep)
    }
}

pub proof fn lemma_first_sep_bounds(s: Seq<u8>, sep: u8)
    ensures
        0 <= spec_first_sep(s, sep) <= s.len(),
        spec_first_sep(s, sep) < s.len() ==> s[spec_first_sep(s, sep)] == sep,
        forall|j: int| 0 <= j < spec_first_sep(s, sep) ==> s[j] != sep,
    decreases s.len(),
{
    if s.len() > 0 && s[0] != sep {
        lemma_first_sep_bounds(s.drop_first(), sep);
        assert forall|j: int| 0 <= j < spec_first_sep(s, sep) implies s[j] != sep by {
            if j > 0 {
                assert(s.drop_first()[j - 1] != sep);
            }
        }
    }
}

/// The pieces of `s` between occurrences of `sep`: splitting keeps empty
/// pieces, and a buffer without the separator is one piece.
pub open spec fn spec_split(s: Seq<u8>, sep: u8) -> Seq<Seq<u8>>
    decreases s.len(),
    via spec_split_decreases
{
    let i = spec_first_sep(s, sep);
    if i == s.len() {
        seq![s]
    } else {
        seq![s.take(i)] + spec_split(s.skip(i + 1), sep)
    }
}

#[via_fn]
proof fn spec_split_decreases(s: Seq<u8>, sep: u8) {
    lemma_first_sep_bounds(s, sep);
}

/// Splits a byte string at every occurrence of `sep`, keeping empty pieces.
pub fn split_bytes(src: &[u8], sep: u8) -> (r: Vec<Vec<u8>>)
    ensures
        r.deep_view() == spec_split(src@, sep),
{
    let mut out: Vec<Vec<u8>> = Vec::new();
    let mut start: usize = 0;
    let mut i: usize = 0;
    proof {
        assert(src@.skip(0) =~= src@);
        assert(out.deep_view() =~= Seq::<Seq<u8>>::empty());
    }
    while i < src.len()
        invariant
            0 <= start <= i <= src@.len(),
            spec_split(src@, sep) == out.deep_view() + spec_split(src@.skip(start as int), sep),
            forall|j: int| start <= j < i ==> src@[j] != sep,
        decreases src@.len() - i,
    {
        if src[i] == sep {
            let piece = vstd::slice::slice_to_vec(vstd::slice::slice_subrange(src, start, i));
            let ghost before = out.deep_view();
            out.push(piece);
            proof {
                assert(piece.deep_view() =~= piece@);
                let rest = src@.skip(start as int);
                lemma_first_sep_at(rest, sep, i - start);
                assert(rest.take(i - start) =~= src@.subrange(start as int, i as int));
                assert(rest.skip(i - start + 1) =~= src@.skip(i as int + 1));
                assert(out.deep_view() =~= before.push(piece@));
                assert(out.deep_view() + spec_split(src@.skip(i as int + 1), sep) =~= before
                    + spec_split(src@.skip(start as int), sep));
            }
            start = i + 1;
        }
        i += 1;
    }
    let piece = vstd::slice::slice_to_vec(vstd::slice::slice_subrange(src, start, src.len()));
    let ghost before = out.deep_view();
    out.push(piece);
    proof {
        assert(piece.deep_view() =~= piece@);
        let rest = src@.skip(start as int);
        lemma_first_sep_none(rest, sep);
        assert(rest =~= src@.subrange(start as int, src@.len() as int));
        assert(out.deep_view() =~= before.push(piece@));
        assert(out.deep_view() =~= before + spec_split(src@.skip(start as int), sep));
    }
    out
}

/// If `sep` first occurs in `s` at `m`, the split peels off `s.take(m)`.
proof fn lemma_first_sep_at(s: Seq<u8>, sep: u8, m: int)
    requires
        0 <= m < s.len(),
        s[m] == sep,
        forall|j: int| 0 <= j < m ==> s[j] != sep,
    ensures
        spec_first_sep(s, sep) == m,
    decreases m,
{
    lemma_first_sep_bounds(s, sep);
    let f = spec_first_sep(s, sep);
    if f < m {
        assert(s[f] == sep);
    }
}

/// Without `sep`, the whole of `s` is the one piece.
proof fn lemma_first_sep_none(s: Seq<u8>, sep: u8)
    requires
        forall|j: int| 0 <= j < s.len() ==> s[j] != sep,
    ensures
        spec_first_sep(s, sep) == s.len(),
{
    lemma_first_sep_bounds(s, sep);
    let f = spec_first_sep(s, sep);
    if f < s.len() {
        assert(s[f] == sep);
    }
}

/// The non-empty pieces of a split, in order.
pub open spec fn spec_non_empty(parts: Seq<Seq<u8>>) -> Seq<Seq<u8>>
    decreases parts.len(),
{
    if parts.len() == 0 {
        Seq::empty()
    } else {
        spec_non_empty(parts.drop_last()) + (if parts.last().len() != 0 {
            seq![parts.last()]
        } else {
            Seq::empty()
        })
    }
}

/// Keeps the non-empty pieces of a split, in order.
pub fn filter_non_empty(parts: Vec<Vec<u8>>) -> (r: Vec<Vec<u8>>)
    ensures
        r.deep_view() == spec_non_empty(parts.deep_view()),
{
    let ghost pv = parts.deep_view();
    let mut out: Vec<Vec<u8>> = Vec::new();
    let mut i: usize = 0;
    proof {
        assert(pv.take(0) =~= Seq::<Seq<u8>>::empty());
        assert(out.deep_view() =~= spec_non_empty(pv.take(0)));
    }
    while i < parts.len()
        invariant
            0 <= i <= parts.len(),
            pv == parts.deep_view(),
            pv.len() == parts.len(),
            out.deep_view() == spec_non_empty(pv.take(i as int)),
        decreases parts.len() - i,
    {
        let ghost before = out.deep_view();
        if parts[i].len() != 0 {
            let piece = vstd::slice::slice_to_vec(parts[i].as_slice());
            out.push(piece);
            proof {
                assert(piece.deep_view() =~= parts@[i as int].deep_view());
                assert(out.deep_view() =~= before.push(pv[i as int]));
            }
        }
        proof {
            assert(pv.take(i + 1).drop_last() =~= pv.take(i as int));
            assert(pv.take(i + 1).last() == pv[i as int]);
            if pv[i as int].len() != 0 {
                assert(out.deep_view() =~= spec_non_empty(pv.take(i as int)) + seq![pv[i as int]]);
            } else {
                assert(out.deep_view() =~= spec_non_empty(pv.take(i as int))
                    + Seq::<Seq<u8>>::empty());
            }
        }
        i += 1;
    }
    proof {
        assert(pv.take(pv.len() as int) =~= pv);
    }
    out
}

} // verus!
