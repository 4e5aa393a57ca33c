//! The ordered map of foreign indexes (shard to count), kept in an `IndexMap`.
use indexmap::IndexMap;
use vstd::prelude::*;

verus! {

#[verifier::external_type_specification]
#[verifier::external_body]
#[verifier::reject_recursive_types(K)]
#[verifier::reject_recursive_types(V)]
#[verifier::reject_recursive_types(S)]
pub struct ExIndexMap<K, V, S>(IndexMap<K, V, S>);

/// Relies on `IndexMap`'s `Clone`: used by the derived `Clone` of headers; nothing is assumed of
/// the copy.
pub assume_specification<K, V, S>[ <IndexMap<K, V, S> as Clone>::clone ](m: &IndexMap<K, V, S>) -> IndexMap<K, V, S>
    where
        K: Clone,
        V: Clone,
        S: Clone,
;

/// The entries of a foreign-index map, in the map's order.
pub uninterp spec fn index_entries(m: IndexMap<u32, u64>) -> Seq<(u32, u64)>;

/// The first position of key `k` in `s`, where there is one.
pub open spec fn key_position(s: Seq<(u32, u64)>, k: u32) -> int {
    choose|i: int| 0 <= i < s.len() && s[i].0 == k && forall|j: int| 0 <= j < i ==> s[j].0 != k
}

/// Some entry of `s` has key `k`.
pub open spec fn has_key(s: Seq<(u32, u64)>, k: u32) -> bool {
    exists|i: int| 0 <= i < s.len() && s[i].0 == k
}

/// Relies on `IndexMap::new`: a map without entries.
#[verifier::external_body]
pub fn index_map_new() -> (r: IndexMap<u32, u64>)
    ensures
        index_entries(r).len() == 0,
{
    IndexMap::new()
}

/// Relies on `IndexMap::insert`: an existing key keeps its place and takes the new value; a new
/// key goes last.
#[verifier::external_body]
pub fn index_map_insert(m: &mut IndexMap<u32, u64>, key: u32, value: u64)
    ensures
        has_key(index_entries(*old(m)), key) ==> index_entries(*final(m)) == index_entries(*old(m)).update(
            key_position(index_entries(*old(m)), key),
            (key, value),
        ),
        !has_key(index_entries(*old(m)), key) ==> index_entries(*final(m)) == index_entries(*old(m)).push((key, value)),
{
    m.insert(key, value);
}

/// Relies on `IndexMap::len`: the number of entries.
#[verifier::external_body]
pub fn index_map_len(m: &IndexMap<u32, u64>) -> (r: usize)
    ensures
        r == index_entries(*m).len(),
{
    m.len()
}

/// Relies on `IndexMap::get_index`: the entry at position `i` in the map's order.
#[verifier::external_body]
pub fn index_map_entry(m: &IndexMap<u32, u64>, i: usize) -> (r: (u32, u64))
    requires
        i < index_entries(*m).len(),
    ensures
        r == index_entries(*m)[i as int],
{
    let (k, v) = m.get_index(i).unwrap();
    (*k, *v)
}

} // verus!
