//! Insertion-ordered maps from feature byte strings to feature IDs.
//!
//! During indexing each column keeps one such map, backed by
//! `linked_hash_map::LinkedHashMap`, which preserves the order in which
//! keys were first inserted.  Contracts model a map's contents as the
//! sequence of its `(key, value)` entries in insertion order,
//! [`map_entries`]; a map never holds two entries with one key.

use vstd::prelude::*;
use linked_hash_map::LinkedHashMap;

verus! {

#[verifier::external_type_specification]
#[verifier::external_body]
#[verifier::reject_recursive_types(K)]
#[verifier::reject_recursive_types(V)]
#[verifier::reject_recursive_types(S)]
pub struct ExLinkedHashMap<K, V, S>(LinkedHashMap<K, V, S>);

/// The entries of a feature-ID map in insertion order: the keys are
/// distinct, and each key carries the value last given for it.
pub uninterp spec fn map_entries(m: LinkedHashMap<Vec<u8>, u32>) -> Seq<(Seq<u8>, u32)>;

/// Relies on `LinkedHashMap::new`: the new map is empty.
#[verifier::external_body]
pub fn map_new() -> (m: LinkedHashMap<Vec<u8>, u32>)
    ensures
        map_entries(m) == Seq::<(Seq<u8>, u32)>::empty(),
{
    LinkedHashMap::new()
}

/// Relies on `LinkedHashMap::len`: the number of entries.
#[verifier::external_body]
pub fn map_len(m: &LinkedHashMap<Vec<u8>, u32>) -> (r: usize)
    ensures
        r == map_entries(*m).len(),
{
    m.len()
}

/// Relies on `LinkedHashMap::get`: the value stored under a key, if the key
/// is present; a map holds at most one entry per key.
#[verifier::external_body]
pub fn map_get(m: &LinkedHashMap<Vec<u8>, u32>, k: &[u8]) -> (r: Option<u32>)
    ensures
        match r {
            Some(v) => exists|i: int|
                0 <= i < map_entries(*m).len() && #[trigger] map_entries(*m)[i] == (k@, v),
            None => forall|i: int|
                0 <= i < map_entries(*m).len() ==> (#[trigger] map_entries(*m)[i]).0 != k@,
        },
{
    m.get(k).copied()
}

/// Relies on `LinkedHashMap::insert`: a key not yet present is appended to
/// the insertion order with its value.
#[verifier::external_body]
pub fn map_insert_new(m: &mut LinkedHashMap<Vec<u8>, u32>, k: Vec<u8>, v: u32)
    requires
        forall|i: int|
            0 <= i < map_entries(*old(m)).len() ==> (#[trigger] map_entries(*old(m))[i]).0 != k@,
    ensures
        map_entries(*final(m)) == map_entries(*old(m)).push((k@, v)),
{
    m.insert(k, v);
}

/// Relies on `LinkedHashMap::keys`: iteration visits the keys in insertion
/// order.
#[verifier::external_body]
pub fn map_keys(m: &LinkedHashMap<Vec<u8>, u32>) -> (r: Vec<Vec<u8>>)
    ensures
        r.deep_view().len() == map_entries(*m).len(),
        forall|i: int|
            0 <= i < map_entries(*m).len() ==> r.deep_view()[i] == (#[trigger] map_entries(
                *m,
            )[i]).0,
{
    m.keys().cloned().collect()
}

} // verus!
