//! A map from names to pairs of numbers, from the `dashmap` crate.
//!
//! `DashMap` takes shared references throughout.  What changes a map here takes it exclusively, so
//! that what a map holds changes with the map.

use dashmap::DashMap;
use vstd::prelude::*;

verus! {

/// The map of the `dashmap` crate.
#[verifier::external_type_specification]
#[verifier::external_body]
#[verifier::reject_recursive_types(K)]
#[verifier::reject_recursive_types(V)]
#[verifier::reject_recursive_types(S)]
pub struct ExDashMap<K, V, S>(DashMap<K, V, S>);

/// What a map holds.
pub uninterp spec fn entries_of(map: DashMap<String, (u64, u64)>) -> Map<Seq<char>, (u64, u64)>;

/// `DashMap::new` of the `dashmap` crate: a map that holds nothing.
#[verifier::external_body]
pub(crate) fn registry_new() -> (fresh: DashMap<String, (u64, u64)>)
    ensures
        forall|n: Seq<char>| !#[trigger] entries_of(fresh).contains_key(n),
{
    DashMap::new()
}

/// `DashMap::len` of the `dashmap` crate: how many names a map holds.
#[verifier::external_body]
pub(crate) fn registry_len(held: &DashMap<String, (u64, u64)>) -> (len: usize)
    ensures
        len == entries_of(*held).dom().len(),
{
    held.len()
}

/// `DashMap::get` of the `dashmap` crate: the pair of a name, where the map holds it.
#[verifier::external_body]
pub(crate) fn registry_get(held: &DashMap<String, (u64, u64)>, name: &str) -> (pair: Option<
    (u64, u64),
>)
    ensures
        match pair {
            Some(p) => entries_of(*held).contains_key(name@) && p == entries_of(*held)[name@],
            None => !entries_of(*held).contains_key(name@),
        },
{
    held.get(name).map(|entry| *entry.value())
}

/// `DashMap::insert` of the `dashmap` crate: gives a name a pair, and hands back the one that it had.
#[verifier::external_body]
pub(crate) fn registry_insert(
    held: &mut DashMap<String, (u64, u64)>,
    name: String,
    pair: (u64, u64),
) -> (had: Option<(u64, u64)>)
    ensures
        entries_of(*final(held)) == entries_of(*old(held)).insert(name@, pair),
        match had {
            Some(p) => entries_of(*old(held)).contains_key(name@) && p == entries_of(*old(held))[name@],
            None => !entries_of(*old(held)).contains_key(name@),
        },
{
    held.insert(name, pair)
}

/// `DashMap::remove` of the `dashmap` crate: takes a name out, and hands back the pair that it had.
#[verifier::external_body]
pub(crate) fn registry_remove(held: &mut DashMap<String, (u64, u64)>, name: &str) -> (had: Option<
    (u64, u64),
>)
    ensures
        entries_of(*final(held)) == entries_of(*old(held)).remove(name@),
        match had {
            Some(p) => entries_of(*old(held)).contains_key(name@) && p == entries_of(*old(held))[name@],
            None => !entries_of(*old(held)).contains_key(name@),
        },
{
    held.remove(name).map(|entry| entry.1)
}

} // verus!
