//! Carries cached writes and deletes to the remote, one pending marker at a time.

use crate::backend::{etag_of_listed, text_or, ListedObject};
use crate::meta::keyspace::{is_reserved_remote_key, unquoted, CONTROL};
use crate::meta::sentinel::{delete_marker_etag, etag_of_body, TombKind, DELETE_MARKER_SENTINEL};
use crate::text::same_text;
use vstd::prelude::*;
use vstd::utf8::encode_utf8;

verus! {

// ---- one bucket's markers ---------------------------------------------------------------------

/// A pending marker: the key that it stands for, and its own ETag.
#[derive(Clone, Debug, PartialEq, Eq)]
pub struct PendingMarker {
    pub key: String,
    pub etag: String,
}

/// The marker that a listed object is.  A key of another range is none.
pub open spec fn marker_of(o: ListedObject) -> Option<(Seq<char>, Seq<char>)> {
    match o.key {
        Some(key) if !(key@.len() > 0 && key@[0] == CONTROL) => Some(
            (key@, unquoted(text_or(o.etag, Seq::empty()))),
        ),
        _ => None,
    }
}

/// The markers of a page, in its order.
pub open spec fn markers_of(page: Seq<ListedObject>) -> Seq<(Seq<char>, Seq<char>)>
    decreases page.len(),
{
    if page.len() == 0 {
        Seq::empty()
    } else {
        let before = markers_of(page.drop_last());
        match marker_of(page.last()) {
            Some(m) => before.push(m),
            None => before,
        }
    }
}

/// Markers with text as sequences.
pub open spec fn marker_rows(markers: Seq<PendingMarker>) -> Seq<(Seq<char>, Seq<char>)> {
    Seq::new(markers.len(), |i: int| (markers[i].key@, markers[i].etag@))
}

/// How old something is at a time; what is from the future is new.
pub open spec fn age_at(now: i64, then_ms: i64) -> nat {
    if now > then_ms {
        (now - then_ms) as nat
    } else {
        0
    }
}

/// The age of the oldest marker of a page, and at least `least`.
pub open spec fn oldest_of(page: Seq<ListedObject>, now: i64, least: nat) -> nat
    decreases page.len(),
{
    if page.len() == 0 {
        least
    } else {
        let before = oldest_of(page.drop_last(), now, least);
        match (marker_of(page.last()), page.last().last_modified_ms) {
            (Some(_), Some(at)) => if age_at(now, at) > before {
                age_at(now, at)
            } else {
                before
            },
            _ => before,
        }
    }
}

fn age_of(now: i64, then_ms: i64) -> (age: u64)
    ensures
        age == age_at(now, then_ms),
{
    if now > then_ms {
        let age: i128 = now as i128 - then_ms as i128;
        age as u64
    } else {
        0
    }
}

/// What a page adds to a count of the pending set.
pub struct Tally {
    pub markers: Vec<PendingMarker>,
    pub oldest_age_ms: u64,
}

/// Reads a page of the listing behind the boundary of the internal ranges: its markers, and the age
/// of the oldest seen so far.  A key of another range that leaks past the boundary is no marker.
pub fn reconcile_page(page: &Vec<ListedObject>, now: i64, oldest_age_ms: u64) -> (tally: Tally)
    ensures
        marker_rows(tally.markers@) == markers_of(page@),
        tally.oldest_age_ms == oldest_of(page@, now, oldest_age_ms as nat),
{
    let mut markers: Vec<PendingMarker> = Vec::new();
    let mut oldest: u64 = oldest_age_ms;
    let mut i: usize = 0;
    assert(page@.take(0) =~= Seq::empty());
    assert(marker_rows(markers@) =~= markers_of(page@.take(0)));
    while i < page.len()
        invariant
            i <= page@.len(),
            marker_rows(markers@) == markers_of(page@.take(i as int)),
            oldest == oldest_of(page@.take(i as int), now, oldest_age_ms as nat),
        decreases page@.len() - i,
    {
        let ghost before = markers@;
        proof {
            assert(page@.take(i + 1).drop_last() =~= page@.take(i as int));
            assert(page@.take(i + 1).last() == page@[i as int]);
        }
        if let Some(key) = &page[i].key {
            if !is_reserved_remote_key(key.as_str()) {
                if let Some(at) = page[i].last_modified_ms {
                    let age: u64 = age_of(now, at);
                    if age > oldest {
                        oldest = age;
                    }
                }
                let marker = PendingMarker {
                    key: key.clone(),
                    etag: etag_of_listed(&page[i].etag),
                };
                markers.push(marker);
                assert(marker_rows(markers@) =~= marker_rows(before).push(
                    (marker.key@, marker.etag@),
                ));
            }
        }
        i += 1;
    }
    assert(page@.take(i as int) =~= page@);
    Tally { markers, oldest_age_ms: oldest }
}

/// What is known of the pending set after one more bucket, whose count may have failed.
pub fn add_bucket(
    pending: usize,
    oldest_age_ms: u64,
    bucket: Option<(usize, u64)>,
) -> (sum: (usize, u64))
    requires
        bucket matches Some(b) ==> pending + b.0 <= usize::MAX,
    ensures
        match bucket {
            Some(b) => sum.0 == pending + b.0 && sum.1 == (if b.1 > oldest_age_ms {
                b.1
            } else {
                oldest_age_ms
            }),
            None => sum == (pending, oldest_age_ms),
        },
{
    match bucket {
        Some(b) => (
            pending + b.0,
            if b.1 > oldest_age_ms {
                b.1
            } else {
                oldest_age_ms
            },
        ),
        None => (pending, oldest_age_ms),
    }
}

// ---- one key ----------------------------------------------------------------------------------

/// What came of an upload.
#[derive(Clone, Copy, Debug, PartialEq, Eq, Structural)]
pub enum UploadOutcome {
    Uploaded,
    SkippedTombstone(TombKind),
    /// The key was gone before its upload.
    Vanished,
}

/// What a marker asks for.
#[derive(Clone, Copy, Debug, PartialEq, Eq, Structural)]
pub enum Reconcile {
    /// Delete the remote object.
    PropagateDelete,
    /// Upload the cache body.
    Upload,
}

/// Whether a marker records a deletion.
pub open spec fn is_delete_marker(etag: Seq<char>) -> bool {
    etag == etag_of_body(encode_utf8(etag_of_body(DELETE_MARKER_SENTINEL@)))
}

/// What a marker asks for: its ETag tells.
pub fn operation_of(marker_etag: &str) -> (operation: Reconcile)
    ensures
        operation == if is_delete_marker(marker_etag@) {
            Reconcile::PropagateDelete
        } else {
            Reconcile::Upload
        },
{
    let deletion: String = delete_marker_etag();
    if same_text(marker_etag, deletion.as_str()) {
        Reconcile::PropagateDelete
    } else {
        Reconcile::Upload
    }
}

/// Whether an upload discharged its marker, which is then cleared where it is still the one that was
/// listed.  An eviction tombstone replaced a generation that the remote holds, and a key that is
/// gone has nothing to upload; only a transition that is under way raises a marker of its own.
pub fn discharges(outcome: UploadOutcome) -> (clear: bool)
    ensures
        clear == (outcome != UploadOutcome::SkippedTombstone(TombKind::Transit)),
{
    match outcome {
        UploadOutcome::Uploaded => true,
        UploadOutcome::SkippedTombstone(TombKind::Evict) => true,
        UploadOutcome::SkippedTombstone(TombKind::Transit) => false,
        UploadOutcome::Vanished => true,
    }
}

/// Whether a key is reconciled in this pass: a bucket that is going away takes its markers with it,
/// and a key whose upload is under way is carried by that one.
pub fn may_reconcile(admitted: bool, upload_lock_free: bool) -> (go: bool)
    ensures
        go == (admitted && upload_lock_free),
{
    admitted && upload_lock_free
}

// ---- laws -------------------------------------------------------------------------------------

/// The oldest age of a listing does not depend on where its pages are cut.
pub proof fn oldest_age_ignores_page_breaks(
    a: Seq<ListedObject>,
    b: Seq<ListedObject>,
    now: i64,
    least: nat,
)
    ensures
        oldest_of(a + b, now, least) == oldest_of(b, now, oldest_of(a, now, least)),
        markers_of(a + b) == markers_of(a) + markers_of(b),
    decreases b.len(),
{
    if b.len() == 0 {
        assert(a + b =~= a);
        assert(markers_of(a) + markers_of(b) =~= markers_of(a));
    } else {
        oldest_age_ignores_page_breaks(a, b.drop_last(), now, least);
        assert((a + b).drop_last() =~= a + b.drop_last());
        assert((a + b).last() == b.last());
        assert(markers_of(a + b) =~= markers_of(a) + markers_of(b));
    }
}

/// Of the listed objects the clients' are markers, each with its own key and its ETag without the
/// quotes, and the gateway's own are none.
pub proof fn every_client_object_is_a_marker(o: ListedObject)
    ensures
        o.key is Some && (o.key->0@.len() == 0 || o.key->0@[0] != CONTROL) && o.etag is Some
            ==> markers_of(seq![o]) == seq![(o.key->0@, unquoted(o.etag->0@))],
        o.key is Some && (o.key->0@.len() == 0 || o.key->0@[0] != CONTROL) && o.etag is None
            ==> markers_of(seq![o]) == seq![(o.key->0@, unquoted(Seq::empty()))],
        o.key is None || (o.key->0@.len() > 0 && o.key->0@[0] == CONTROL) ==> markers_of(
            seq![o],
        ).len() == 0,
        markers_of(Seq::empty()).len() == 0,
{
    assert(seq![o].drop_last() =~= Seq::<ListedObject>::empty());
    reveal_with_fuel(markers_of, 2);
    if marker_of(o) is Some {
        assert(markers_of(seq![o]) =~= seq![marker_of(o)->0]);
    }
}

/// The oldest age is the largest there is: no marker of the page is older, nor what was found before it,
/// and it is the age of one of them; a time to come is no age.
pub proof fn the_oldest_age_is_the_largest(page: Seq<ListedObject>, now: i64, least: nat, i: int)
    requires
        0 <= i < page.len(),
    ensures
        oldest_of(page, now, least) >= least,
        page[i].key is Some && (page[i].key->0@.len() == 0 || page[i].key->0@[0] != CONTROL)
            && page[i].last_modified_ms is Some ==> oldest_of(page, now, least) >= now
            - page[i].last_modified_ms->0,
        oldest_of(page, now, least) == least || exists|j: int|
            0 <= j < page.len() && marker_of(#[trigger] page[j]) is Some
                && page[j].last_modified_ms is Some && oldest_of(page, now, least) == now
                - page[j].last_modified_ms->0,
    decreases page.len(),
{
    let front = page.drop_last();
    reveal_with_fuel(oldest_of, 2);
    if page.len() > 1 {
        let k: int = if i < front.len() {
            i
        } else {
            0
        };
        the_oldest_age_is_the_largest(front, now, least, k);
        assert(page[k] == front[k]);
    } else {
        assert(oldest_of(front, now, least) == least);
    }
    let before = oldest_of(front, now, least);
    if oldest_of(page, now, least) == before && before != least {
        let j = choose|j: int|
            0 <= j < front.len() && marker_of(#[trigger] front[j]) is Some
                && front[j].last_modified_ms is Some && before == now
                - front[j].last_modified_ms->0;
        assert(page[j] == front[j]);
    } else if oldest_of(page, now, least) != before {
        assert(page[page.len() - 1] == page.last());
    }
}

/// A marker is that of a deletion exactly where its body is the one that no client's ETag can be.
pub proof fn a_deletion_is_known_by_its_marker(etag: Seq<char>)
    ensures
        is_delete_marker(etag) <==> etag == etag_of_body(
            encode_utf8(etag_of_body(DELETE_MARKER_SENTINEL@)),
        ),
{
}

/// Markers are seen one by one, each with its own key and ETag.
pub proof fn markers_are_seen_one_by_one(list: Seq<PendingMarker>, i: int)
    ensures
        marker_rows(list).len() == list.len(),
        0 <= i < list.len() ==> marker_rows(list)[i].0 == list[i].key@,
        0 <= i < list.len() ==> marker_rows(list)[i].1 == list[i].etag@,
{
}

} // verus!
