//! The hash collections of `rustc-hash`, keyed by integers.

use rustc_hash::{FxBuildHasher, FxHashMap, FxHashSet};
use vstd::prelude::*;

verus! {

/// The hasher state of `rustc-hash`.
#[verifier::external_type_specification]
#[verifier::external_body]
pub struct ExFxBuildHasher(FxBuildHasher);

/// An empty set: `FxHashSet::default` makes a set without elements.
#[verifier::external_body]
pub(crate) fn set_new() -> (set: FxHashSet<u64>)
    ensures
        set@ == Set::<u64>::empty(),
{
    FxHashSet::default()
}

/// `HashSet::insert`: adds the value, and says whether it was not there before.
#[verifier::external_body]
pub(crate) fn set_insert(set: &mut FxHashSet<u64>, value: u64) -> (added: bool)
    ensures
        final(set)@ == old(set)@.insert(value),
        added == !old(set)@.contains(value),
{
    set.insert(value)
}

/// `HashSet::contains`: whether the value is in the set.
#[verifier::external_body]
pub(crate) fn set_contains(set: &FxHashSet<u64>, value: u64) -> (found: bool)
    ensures
        found == set@.contains(value),
{
    set.contains(&value)
}

/// An empty map: `FxHashMap::default` makes a map without entries.
#[verifier::external_body]
pub(crate) fn map_new<V>() -> (table: FxHashMap<u32, V>)
    ensures
        table@.dom() == Set::<u32>::empty(),
{
    FxHashMap::default()
}

/// `HashMap::get`: the value at the key, if the map has the key.
#[verifier::external_body]
pub(crate) fn map_get<V>(table: &FxHashMap<u32, V>, key: u32) -> (value: Option<&V>)
    ensures
        value == (if table@.dom().contains(key) {
            Some(&table@[key])
        } else {
            None
        }),
{
    table.get(&key)
}

/// `HashMap::insert`: puts the value at the key, in place of what was there.
#[verifier::external_body]
pub(crate) fn map_insert<V>(table: &mut FxHashMap<u32, V>, key: u32, value: V)
    ensures
        final(table)@ == old(table)@.insert(key, value),
{
    table.insert(key, value);
}

/// `HashMap::remove`: takes the entry at the key out, and hands its value over.
#[verifier::external_body]
pub(crate) fn map_remove<V>(table: &mut FxHashMap<u32, V>, key: u32) -> (value: Option<V>)
    ensures
        final(table)@ == old(table)@.remove(key),
        value == (if old(table)@.dom().contains(key) {
            Some(old(table)@[key])
        } else {
            None
        }),
{
    table.remove(&key)
}

/// `HashMap::keys`: every key once, in an order that the map does not promise.
#[verifier::external_body]
pub(crate) fn map_keys<V>(table: &FxHashMap<u32, V>) -> (keys: Vec<u32>)
    ensures
        keys@.no_duplicates(),
        forall|key: u32| keys@.contains(key) <==> table@.dom().contains(key),
{
    table.keys().copied().collect()
}

} // verus!
