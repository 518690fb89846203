//! Rebuilds a bucket's cache projection from the remote.
//!
//! The pass only adds.  An entry that is there is current, from an earlier attempt or from a write
//! during this one, so the pass can be cut short and run again.

use crate::backend::{etag_of_listed, text_or, ListedObject};
use crate::halt::{Invariant, Violation};
use crate::meta::keyspace::{is_reserved_remote_key, unquoted, CONTROL};
use crate::meta::sentinel::{
    classified, classify_entry, etag_of_body, EVICT_SENTINEL, TRANSIT_SENTINEL,
};
use vstd::prelude::*;

verus! {

/// What is wrong where a plaintext body is in the cache while its namespace is restored.
pub const PLAINTEXT_FOUND: &'static str =
    "a live plaintext body is in <data> while this bucket's namespace is restoring; writes must run with durable semantics for the whole restore, so the write-mode gate has leaked";

/// The key that a listed remote object is restored under; none for a reserved one.
pub open spec fn restored_key(o: ListedObject) -> Option<Seq<char>> {
    match o.key {
        Some(key) if !(key@.len() > 0 && key@[0] == CONTROL) => Some(key@),
        _ => None,
    }
}

/// The keys of a page that are restored, in its order.
pub open spec fn restored_keys(page: Seq<ListedObject>) -> Seq<Seq<char>>
    decreases page.len(),
{
    if page.len() == 0 {
        Seq::empty()
    } else {
        let before = restored_keys(page.drop_last());
        match restored_key(page.last()) {
            Some(key) => before.push(key),
            None => before,
        }
    }
}

/// Texts as sequences.
pub open spec fn texts(list: Seq<String>) -> Seq<Seq<char>> {
    Seq::new(list.len(), |i: int| list[i]@)
}

/// The keys of a page of the remote that are to be materialized where the cache has none.
pub fn namespace(page: &Vec<ListedObject>) -> (keys: Vec<String>)
    ensures
        texts(keys@) == restored_keys(page@),
{
    let mut keys: Vec<String> = Vec::new();
    let mut i: usize = 0;
    assert(page@.take(0) =~= Seq::empty());
    assert(texts(keys@) =~= restored_keys(page@.take(0)));
    while i < page.len()
        invariant
            i <= page@.len(),
            texts(keys@) == restored_keys(page@.take(i as int)),
        decreases page@.len() - i,
    {
        let ghost before = keys@;
        proof {
            assert(page@.take(i + 1).drop_last() =~= page@.take(i as int));
            assert(page@.take(i + 1).last() == page@[i as int]);
        }
        if let Some(key) = &page[i].key {
            if !is_reserved_remote_key(key.as_str()) {
                keys.push(key.clone());
                assert(texts(keys@) =~= texts(before).push(key@));
            }
        }
        i += 1;
    }
    assert(page@.take(i as int) =~= page@);
    keys
}

/// Whether a listed cache entry is a tombstone.
pub open spec fn is_tomb(o: ListedObject) -> bool {
    classified(
        match o.size {
            Some(s) => s as int,
            None => 0,
        },
        unquoted(text_or(o.etag, Seq::empty())),
    ) is Some
}

/// Looks for a plaintext body on a page of the cache.  Writes commit on the remote for as long as a
/// namespace is restored, so only tombstones are expected there: the first entry that is none is a
/// violation.
pub fn probe_for_native_objects(bucket: &str, page: &Vec<ListedObject>) -> (found: Option<Violation>)
    ensures
        match found {
            None => forall|i: int| 0 <= i < page@.len() ==> is_tomb(#[trigger] page@[i]),
            Some(v) => exists|i: int|
                {
                    &&& 0 <= i < page@.len()
                    &&& !is_tomb(#[trigger] page@[i])
                    &&& forall|j: int| 0 <= j < i ==> is_tomb(#[trigger] page@[j])
                    &&& v.invariant == Invariant::PlaintextDuringRestore
                    &&& v.bucket@ == bucket@
                    &&& v.key is Some == page@[i].key is Some
                    &&& v.key is Some ==> v.key->0@ == page@[i].key->0@
                    &&& v.detail@ == PLAINTEXT_FOUND@
                },
        },
{
    let mut i: usize = 0;
    while i < page.len()
        invariant
            i <= page@.len(),
            forall|j: int| 0 <= j < i ==> is_tomb(#[trigger] page@[j]),
        decreases page@.len() - i,
    {
        let size: i64 = match page[i].size {
            Some(s) => s,
            None => 0,
        };
        let etag: String = etag_of_listed(&page[i].etag);
        if classify_entry(size, etag.as_str()).is_none() {
            let key: Option<String> = match &page[i].key {
                Some(k) => Some(k.clone()),
                None => None,
            };
            assert(!is_tomb(page@[i as int]));
            return Some(
                Violation {
                    invariant: Invariant::PlaintextDuringRestore,
                    bucket: bucket.to_string(),
                    key,
                    detail: PLAINTEXT_FOUND.to_string(),
                },
            );
        }
        i += 1;
    }
    None
}

/// A page of the remote is restored object by object: every client's key, in its order, and none of the
/// gateway's own names.
pub proof fn every_client_key_is_restored(
    a: Seq<ListedObject>,
    b: Seq<ListedObject>,
    one: ListedObject,
)
    ensures
        restored_keys(a + b) == restored_keys(a) + restored_keys(b),
        restored_keys(Seq::<ListedObject>::empty()).len() == 0,
        one.key is Some && (one.key->0@.len() == 0 || one.key->0@[0] != CONTROL) ==> restored_keys(
            seq![one],
        ) == seq![one.key->0@],
        one.key is None || (one.key->0@.len() > 0 && one.key->0@[0] == CONTROL) ==> restored_keys(
            seq![one],
        ).len() == 0,
    decreases b.len(),
{
    assert(seq![one].drop_last() =~= Seq::<ListedObject>::empty());
    assert(seq![one].last() == one);
    reveal_with_fuel(restored_keys, 2);
    if restored_key(one) is Some {
        assert(restored_keys(seq![one]) =~= seq![one.key->0@]);
    }
    if b.len() == 0 {
        assert(a + b =~= a);
        assert(restored_keys(a) + restored_keys(b) =~= restored_keys(a));
    } else {
        every_client_key_is_restored(a, b.drop_last(), one);
        assert((a + b).drop_last() =~= a + b.drop_last());
        assert((a + b).last() == b.last());
        assert(restored_keys(a + b) =~= restored_keys(a) + restored_keys(b));
    }
}

/// An object found in the cache passes for a tombstone exactly where it has the length and the ETag of
/// one.
pub proof fn only_a_tombstone_passes_for_one(o: ListedObject)
    ensures
        o.etag is Some ==> (is_tomb(o) <==> o.size is Some && o.size->0 == 16 && (unquoted(
            o.etag->0@,
        ) == etag_of_body(EVICT_SENTINEL@) || unquoted(o.etag->0@) == etag_of_body(
            TRANSIT_SENTINEL@,
        ))),
        o.size is None || o.size->0 != 16 ==> !is_tomb(o),
{
}

/// Keys are seen one by one, in their order.
pub proof fn keys_are_seen_one_by_one(list: Seq<String>, i: int)
    ensures
        texts(list).len() == list.len(),
        0 <= i < list.len() ==> texts(list)[i] == list[i]@,
{
}

} // verus!
