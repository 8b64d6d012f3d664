//! The concurrent map that backs the root table.
//!
//! The map itself is `dashmap`'s `DashMap`, keyed by root identifier. Nothing
//! in this module is proved: each function states what the map's own code
//! does when the caller is its only user, which the exclusive borrow
//! guarantees.
use dashmap::DashMap;
use std::collections::hash_map::RandomState;
use vstd::prelude::*;

verus! {

#[verifier::external_type_specification]
#[verifier::external_body]
#[verifier::reject_recursive_types(K)]
#[verifier::reject_recursive_types(V)]
#[verifier::reject_recursive_types(S)]
pub struct ExDashMap<K, V, S>(DashMap<K, V, S>);

/// What a root table maps each identifier to.
pub uninterp spec fn table_entries(t: &DashMap<usize, Option<usize>, RandomState>) -> Map<
    usize,
    Option<usize>,
>;

/// The table with no entry.
pub open spec fn no_entries() -> Map<usize, Option<usize>> {
    Map::empty()
}

/// Every listed pair is an entry of `entries`, every key of `entries` is
/// listed, and no key is listed twice. The order of the list is left open.
pub open spec fn lists_entries(
    pairs: Seq<(usize, Option<usize>)>,
    entries: Map<usize, Option<usize>>,
) -> bool {
    &&& forall|i: int|
        0 <= i < pairs.len() ==> entries.contains_pair(
            (#[trigger] pairs[i]).0,
            pairs[i].1,
        )
    &&& forall|k: usize|
        entries.dom().contains(k) ==> exists|i: int|
            0 <= i < pairs.len() && (#[trigger] pairs[i]).0 == k
    &&& forall|i: int, j: int|
        0 <= i < j < pairs.len() ==> (#[trigger] pairs[i]).0 != (#[trigger] pairs[j]).0
}

/// `DashMap::new`: a map with no entry.
#[verifier::external_body]
pub(crate) fn table_new() -> (t: DashMap<usize, Option<usize>, RandomState>)
    ensures
        table_entries(&t) == no_entries(),
{
    DashMap::new()
}

/// `DashMap::insert`: the key now maps to the value, other keys are
/// untouched, and the value that the key had before, if any, is returned.
#[verifier::external_body]
pub(crate) fn table_insert(
    t: &mut DashMap<usize, Option<usize>, RandomState>,
    key: usize,
    value: Option<usize>,
) -> (previous: Option<Option<usize>>)
    ensures
        table_entries(final(t)) == table_entries(old(t)).insert(key, value),
        previous.is_some() == table_entries(old(t)).dom().contains(key),
        previous.is_some() ==> previous == Some(table_entries(old(t))[key]),
{
    t.insert(key, value)
}

/// `DashMap::remove`: the key has no entry afterwards, other keys are
/// untouched, and the entry that was removed, if any, is returned.
#[verifier::external_body]
pub(crate) fn table_remove(
    t: &mut DashMap<usize, Option<usize>, RandomState>,
    key: usize,
) -> (removed: Option<(usize, Option<usize>)>)
    ensures
        table_entries(final(t)) == table_entries(old(t)).remove(key),
        removed.is_some() == table_entries(old(t)).dom().contains(key),
        removed.is_some() ==> removed == Some((key, table_entries(old(t))[key])),
{
    t.remove(&key)
}

/// `DashMap::len`: how many entries the map holds.
#[verifier::external_body]
pub(crate) fn table_len(t: &DashMap<usize, Option<usize>, RandomState>) -> (n: usize)
    ensures
        n == table_entries(t).len(),
{
    t.len()
}

/// `DashMap::iter`: every entry once, copied out, in the order in which the
/// map happens to walk its shards.
#[verifier::external_body]
pub(crate) fn table_pairs(t: &DashMap<usize, Option<usize>, RandomState>) -> (pairs: Vec<
    (usize, Option<usize>),
>)
    ensures
        lists_entries(pairs@, table_entries(t)),
{
    t.iter().map(|entry| (*entry.key(), *entry.value())).collect()
}

} // verus!
