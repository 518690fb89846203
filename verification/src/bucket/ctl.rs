//! The life of a bucket: how it is resolved at startup, created, deleted and recovered.

use crate::backend::ListedObject;
use crate::bucket::actor::Recovery;
use crate::bucket::gate::BucketStatus;
use crate::error::{Error, ErrorView};
use crate::halt::{Invariant, Violation};
use crate::meta::keyspace::{is_reserved_remote_key, CONTROL};
use vstd::prelude::*;

verus! {

// ---- startup ----------------------------------------------------------------------------------

/// What a bucket starts as, and what it owes.
#[derive(Clone, Copy, Debug, PartialEq, Eq, Structural)]
pub struct Resolution {
    pub status: BucketStatus,
    /// The pending set is known to be complete.
    pub accounted: bool,
    pub recovery: Option<Recovery>,
    /// The shadow bodies are known to be reachable.
    pub shadows_accounted: bool,
    /// The shadow bodies are to be swept.
    pub sweep: bool,
}

/// What a bucket of the remote starts as.  Without a sync marker its namespace is to be restored, and
/// nothing else is owed; with one it is ready, and what no clean marker vouches for is looked into.
pub open spec fn resolved(cached: bool, synced: bool, clean: bool, shadows_clean: bool) -> Resolution {
    if !synced {
        Resolution {
            status: BucketStatus::Restoring,
            accounted: false,
            recovery: Some(Recovery::Restore),
            shadows_accounted: false,
            sweep: false,
        }
    } else {
        Resolution {
            status: BucketStatus::Ready,
            accounted: cached && clean,
            recovery: if cached && !clean {
                Some(Recovery::RebuildPending)
            } else {
                None
            },
            shadows_accounted: cached && shadows_clean,
            sweep: cached && !shadows_clean,
        }
    }
}

/// Resolves a bucket of the remote from its markers, before anything is served.
pub fn resolve(cached: bool, synced: bool, clean: bool, shadows_clean: bool) -> (resolution: Resolution)
    ensures
        resolution == resolved(cached, synced, clean, shadows_clean),
{
    if !synced {
        return Resolution {
            status: BucketStatus::Restoring,
            accounted: false,
            recovery: Some(Recovery::Restore),
            shadows_accounted: false,
            sweep: false,
        };
    }
    Resolution {
        status: BucketStatus::Ready,
        accounted: cached && clean,
        recovery: if cached && !clean {
            Some(Recovery::RebuildPending)
        } else {
            None
        },
        shadows_accounted: cached && shadows_clean,
        sweep: cached && !shadows_clean,
    }
}

/// Whether a marker is there; a projection that is gone holds none.
pub fn marker_present(looked: Result<(), Error>) -> (present: Result<bool, Error>)
    ensures
        match looked {
            Ok(_) => present == Ok::<bool, Error>(true),
            Err(e) => if e@ == ErrorView::NotFound || e@ == ErrorView::NoSuchBucket {
                present == Ok::<bool, Error>(false)
            } else {
                present == Err::<bool, Error>(e)
            },
        },
{
    match looked {
        Ok(_) => Ok(true),
        Err(e) => if e.is_absence() {
            Ok(false)
        } else {
            Err(e)
        },
    }
}

/// Takes a clean marker: it counts only once it is deleted, and one that does not go fails the start.
/// The deletion is asked for where the marker is there.
pub fn take_marker(present: bool, deleted: Option<Result<(), Error>>) -> (taken: Result<bool, Error>)
    requires
        present ==> deleted is Some,
    ensures
        !present ==> taken == Ok::<bool, Error>(false),
        present ==> match deleted {
            Some(Ok(_)) => taken == Ok::<bool, Error>(true),
            Some(Err(e)) => taken == Err::<bool, Error>(e),
            None => true,
        },
{
    if !present {
        return Ok(false);
    }
    match deleted {
        Some(Ok(_)) => Ok(true),
        Some(Err(e)) => Err(e),
        None => Ok(false),
    }
}

// ---- creation ---------------------------------------------------------------------------------

/// What the creation of a bucket comes to.
#[derive(Debug)]
pub enum CreateStep {
    /// Another deployment writes to the remote.
    Halt(Violation),
    /// The bucket is there: the remote's own answer is the caller's.
    CreateRemote,
    /// The bucket is new: its cache is reset, its sync marker written and the remote bucket created,
    /// which is the commit; then it is published.
    ResetThenCreate,
    Fail(Error),
}

/// Decides on the creation of a bucket, from a look at the remote and what is published of it.
pub fn create(bucket: &str, looked: Result<(), Error>, status: BucketStatus) -> (step: CreateStep)
    ensures
        match looked {
            Ok(_) => if status == BucketStatus::Absent {
                step matches CreateStep::Halt(v) && v.invariant == Invariant::ForeignBucket
                    && v.bucket@ == bucket@ && v.key is None && v.detail@
                    == "the remote holds a bucket hypha did not create and did not resolve at startup; something other than this deployment is writing the remote"@
            } else {
                step is CreateRemote
            },
            Err(e) => if e@ == ErrorView::NoSuchBucket {
                step is ResetThenCreate
            } else {
                step == CreateStep::Fail(e)
            },
        },
{
    match looked {
        Ok(_) => match status {
            BucketStatus::Absent => CreateStep::Halt(
                Violation {
                    invariant: Invariant::ForeignBucket,
                    bucket: bucket.to_string(),
                    key: None,
                    detail: "the remote holds a bucket hypha did not create and did not resolve at startup; something other than this deployment is writing the remote".to_string(),
                },
            ),
            _ => CreateStep::CreateRemote,
        },
        Err(Error::NoSuchBucket) => CreateStep::ResetThenCreate,
        Err(e) => CreateStep::Fail(e),
    }
}

// ---- deletion ---------------------------------------------------------------------------------

/// What is done to delete a bucket.
#[derive(Debug, PartialEq, Eq)]
pub enum DeleteAction {
    /// See that no write is in flight.
    LookAtGate,
    /// List the namespace that clients see.
    ListNamespace,
    /// Close the bucket gate, if nothing was admitted since the look at it.
    CloseGate,
    /// Delete what the remote holds, and the remote bucket.
    DrainRemote,
    /// The remote bucket is gone: commit the close and retire the bucket.
    Commit,
    /// The remote could not be drained: reopen the bucket gate, and answer with the error.
    Reopen(Error),
    DrainData,
    /// Delete the meta projection, and with it the bucket's pending markers.
    DrainMeta,
    Deleted,
    Refused(Error),
}

/// A [`DeleteAction`], with text as a sequence.
pub enum DeleteActionView {
    LookAtGate,
    ListNamespace,
    CloseGate,
    DrainRemote,
    Commit,
    Reopen(ErrorView),
    DrainData,
    DrainMeta,
    Deleted,
    Refused(ErrorView),
}

impl View for DeleteAction {
    type V = DeleteActionView;

    open spec fn view(&self) -> DeleteActionView {
        match *self {
            DeleteAction::LookAtGate => DeleteActionView::LookAtGate,
            DeleteAction::ListNamespace => DeleteActionView::ListNamespace,
            DeleteAction::CloseGate => DeleteActionView::CloseGate,
            DeleteAction::DrainRemote => DeleteActionView::DrainRemote,
            DeleteAction::Commit => DeleteActionView::Commit,
            DeleteAction::Reopen(e) => DeleteActionView::Reopen(e@),
            DeleteAction::DrainData => DeleteActionView::DrainData,
            DeleteAction::DrainMeta => DeleteActionView::DrainMeta,
            DeleteAction::Deleted => DeleteActionView::Deleted,
            DeleteAction::Refused(e) => DeleteActionView::Refused(e@),
        }
    }
}

/// How an action came out.
pub enum DeleteEvent {
    /// Whether no write was in flight.
    GateSeen(bool),
    /// Whether the namespace is empty.
    Listed(Result<bool, Error>),
    /// Whether the close won.
    Closed(bool),
    RemoteDrained(Result<(), Error>),
    Committed,
    /// A leftover projection is debris, whatever came of its deletion.
    DataDrained,
    MetaDrained,
}

/// What comes first: a bucket that is not published does not exist.
pub open spec fn first_of_delete(published: bool) -> DeleteActionView {
    if published {
        DeleteActionView::LookAtGate
    } else {
        DeleteActionView::Refused(ErrorView::NoSuchBucket)
    }
}

/// What comes after an event.
pub open spec fn next_of_delete(event: DeleteEvent) -> DeleteActionView {
    match event {
        DeleteEvent::GateSeen(quiescent) => if quiescent {
            DeleteActionView::ListNamespace
        } else {
            DeleteActionView::Refused(ErrorView::OperationAborted)
        },
        DeleteEvent::Listed(Ok(empty)) => if empty {
            DeleteActionView::CloseGate
        } else {
            DeleteActionView::Refused(ErrorView::BucketNotEmpty)
        },
        DeleteEvent::Listed(Err(e)) => DeleteActionView::Refused(e@),
        DeleteEvent::Closed(won) => if won {
            DeleteActionView::DrainRemote
        } else {
            DeleteActionView::Refused(ErrorView::OperationAborted)
        },
        DeleteEvent::RemoteDrained(Ok(_)) => DeleteActionView::Commit,
        DeleteEvent::RemoteDrained(Err(e)) => DeleteActionView::Reopen(e@),
        DeleteEvent::Committed => DeleteActionView::DrainData,
        DeleteEvent::DataDrained => DeleteActionView::DrainMeta,
        DeleteEvent::MetaDrained => DeleteActionView::Deleted,
    }
}

/// Begins the deletion of a bucket.
pub fn begin_delete(published: bool) -> (action: DeleteAction)
    ensures
        action@ == first_of_delete(published),
{
    if published {
        DeleteAction::LookAtGate
    } else {
        DeleteAction::Refused(Error::NoSuchBucket)
    }
}

/// Goes on with the deletion of a bucket.
pub fn delete(event: DeleteEvent) -> (action: DeleteAction)
    ensures
        action@ == next_of_delete(event),
{
    match event {
        DeleteEvent::GateSeen(quiescent) => if quiescent {
            DeleteAction::ListNamespace
        } else {
            DeleteAction::Refused(Error::OperationAborted)
        },
        DeleteEvent::Listed(Ok(empty)) => if empty {
            DeleteAction::CloseGate
        } else {
            DeleteAction::Refused(Error::BucketNotEmpty)
        },
        DeleteEvent::Listed(Err(e)) => DeleteAction::Refused(e),
        DeleteEvent::Closed(won) => if won {
            DeleteAction::DrainRemote
        } else {
            DeleteAction::Refused(Error::OperationAborted)
        },
        DeleteEvent::RemoteDrained(Ok(_)) => DeleteAction::Commit,
        DeleteEvent::RemoteDrained(Err(e)) => DeleteAction::Reopen(e),
        DeleteEvent::Committed => DeleteAction::DrainData,
        DeleteEvent::DataDrained => DeleteAction::DrainMeta,
        DeleteEvent::MetaDrained => DeleteAction::Deleted,
    }
}

/// Whether a listed object is one that clients see.
pub open spec fn is_client_object(o: ListedObject) -> bool {
    o.key matches Some(key) && !(key@.len() > 0 && key@[0] == CONTROL)
}

/// What a page says about whether a bucket is empty.
#[derive(Debug, PartialEq, Eq)]
pub enum Emptiness {
    Empty,
    Occupied,
    /// Nothing yet: the page after this one has to be read.
    ReadOn(String),
}

/// Whether a bucket is empty for clients, from a page of the listing that they would get: that of the
/// cache once the bucket is ready, in which one entry settles it, and else that of the remote, whose
/// reserved keys no client sees.
pub fn namespace_empty(
    ready: bool,
    page: &Vec<ListedObject>,
    truncated: Option<bool>,
    next: Option<String>,
) -> (emptiness: Emptiness)
    ensures
        ready ==> emptiness == if page@.len() == 0 {
            Emptiness::Empty
        } else {
            Emptiness::Occupied
        },
        !ready ==> if exists|i: int| 0 <= i < page@.len() && is_client_object(#[trigger] page@[i]) {
            emptiness is Occupied
        } else if truncated == Some(true) && next is Some {
            emptiness == Emptiness::ReadOn(next->Some_0)
        } else {
            emptiness is Empty
        },
{
    if ready {
        return if page.len() == 0 {
            Emptiness::Empty
        } else {
            Emptiness::Occupied
        };
    }
    let mut i: usize = 0;
    while i < page.len()
        invariant
            i <= page@.len(),
            forall|j: int| 0 <= j < i ==> !is_client_object(#[trigger] page@[j]),
        decreases page@.len() - i,
    {
        if let Some(key) = &page[i].key {
            if !is_reserved_remote_key(key.as_str()) {
                assert(is_client_object(page@[i as int]));
                return Emptiness::Occupied;
            }
        }
        i += 1;
    }
    match (truncated, next) {
        (Some(true), Some(token)) => Emptiness::ReadOn(token),
        _ => Emptiness::Empty,
    }
}

// ---- draining a backend bucket ----------------------------------------------------------------

/// What the drain of a backend's bucket comes to.
#[derive(Debug, PartialEq, Eq)]
pub enum DrainStep {
    /// List what the bucket holds, from its head on.
    List,
    /// Nothing is left: delete the bucket.
    DeleteBucket,
    /// The bucket is gone; so many pending markers went with it.
    Done(u64),
    Fail(Error),
}

/// After a look for the bucket: one that is not there holds nothing.
pub fn drain_and_delete_if_exists(looked: Result<(), Error>) -> (step: DrainStep)
    ensures
        match looked {
            Ok(_) => step is List,
            Err(e) => if e@ == ErrorView::NoSuchBucket {
                step == DrainStep::Done(0)
            } else {
                step == DrainStep::Fail(e)
            },
        },
{
    match looked {
        Ok(_) => DrainStep::List,
        Err(Error::NoSuchBucket) => DrainStep::Done(0),
        Err(e) => DrainStep::Fail(e),
    }
}

/// The keys of a page, in its order.
pub open spec fn page_keys(page: Seq<ListedObject>) -> Seq<Seq<char>>
    decreases page.len(),
{
    if page.len() == 0 {
        Seq::empty()
    } else {
        let before = page_keys(page.drop_last());
        match page.last().key {
            Some(key) => before.push(key@),
            None => before,
        }
    }
}

/// How many of some keys are pending markers: those outside the reserved ranges.
pub open spec fn marker_count(keys: Seq<Seq<char>>) -> nat
    decreases keys.len(),
{
    if keys.len() == 0 {
        0
    } else {
        marker_count(keys.drop_last()) + if keys.last().len() > 0 && keys.last()[0] == CONTROL {
            0nat
        } else {
            1
        }
    }
}

/// Texts as sequences.
pub open spec fn key_texts(list: Seq<String>) -> Seq<Seq<char>> {
    Seq::new(list.len(), |i: int| list[i]@)
}

/// The keys of a page, which are deleted one by one, and how many of them are pending markers.
pub fn drain_page(page: &Vec<ListedObject>) -> (drained: (Vec<String>, u64))
    ensures
        key_texts(drained.0@) == page_keys(page@),
        drained.1 == marker_count(page_keys(page@)),
{
    let mut keys: Vec<String> = Vec::new();
    let mut markers: u64 = 0;
    let total: usize = page.len();
    let mut i: usize = 0;
    assert(page@.take(0) =~= Seq::empty());
    assert(key_texts(keys@) =~= page_keys(page@.take(0)));
    while i < total
        invariant
            i <= total == page@.len(),
            key_texts(keys@) == page_keys(page@.take(i as int)),
            markers == marker_count(page_keys(page@.take(i as int))),
            markers <= i,
        decreases total - i,
    {
        let ghost before = keys@;
        proof {
            assert(page@.take(i + 1).drop_last() =~= page@.take(i as int));
            assert(page@.take(i + 1).last() == page@[i as int]);
        }
        if let Some(key) = &page[i].key {
            if !is_reserved_remote_key(key.as_str()) {
                markers += 1;
            }
            keys.push(key.clone());
            proof {
                assert(key_texts(keys@) =~= key_texts(before).push(key@));
                let k = page_keys(page@.take(i + 1));
                assert(k.drop_last() =~= page_keys(page@.take(i as int)));
                assert(k.last() == key@);
            }
        }
        i += 1;
    }
    assert(page@.take(i as int) =~= page@);
    (keys, markers)
}

/// After a page was deleted.
pub fn after_page(keys: usize, truncated: Option<bool>) -> (step: DrainStep)
    ensures
        step == if keys > 0 && truncated == Some(true) {
            DrainStep::List
        } else {
            DrainStep::DeleteBucket
        },
{
    match truncated {
        Some(true) => if keys > 0 {
            DrainStep::List
        } else {
            DrainStep::DeleteBucket
        },
        _ => DrainStep::DeleteBucket,
    }
}

/// After the bucket was deleted.
pub fn after_bucket_delete(deleted: Result<(), Error>, markers: u64) -> (step: DrainStep)
    ensures
        match deleted {
            Ok(_) => step == DrainStep::Done(markers),
            Err(e) => if e@ == ErrorView::NoSuchBucket {
                step == DrainStep::Done(markers)
            } else {
                step == DrainStep::Fail(e)
            },
        },
{
    match deleted {
        Ok(_) => DrainStep::Done(markers),
        Err(Error::NoSuchBucket) => DrainStep::Done(markers),
        Err(e) => DrainStep::Fail(e),
    }
}

// ---- recovery ---------------------------------------------------------------------------------

/// What a recovery does next.
#[derive(Clone, Copy, Debug, PartialEq, Eq, Structural)]
pub enum RecoveryStep {
    /// Make the cache projections.
    Provision,
    Run(Recovery),
    /// The namespace is rebuilt: write the sync marker.
    WriteSyncMarker,
    /// The bucket becomes ready, and its pending set, which is empty, is accounted for.
    FlipAndAccount,
    /// The pending set is rebuilt, and is accounted for.
    Account,
    /// The bucket was deleted meanwhile.
    Retire,
    /// Queue the same pass again, after a while.
    Retry,
}

/// After a look for the remote bucket.
pub fn run_recovery(looked: &Result<(), Error>) -> (step: RecoveryStep)
    ensures
        step == match *looked {
            Ok(_) => RecoveryStep::Provision,
            Err(e) => if e@ == ErrorView::NoSuchBucket {
                RecoveryStep::Retire
            } else {
                RecoveryStep::Retry
            },
        },
{
    match looked {
        Ok(_) => RecoveryStep::Provision,
        Err(Error::NoSuchBucket) => RecoveryStep::Retire,
        Err(_) => RecoveryStep::Retry,
    }
}

/// After the cache projections were made, or not.
pub fn after_provision(made: bool, pass: Recovery) -> (step: RecoveryStep)
    ensures
        step == if made {
            RecoveryStep::Run(pass)
        } else {
            RecoveryStep::Retry
        },
{
    if made {
        RecoveryStep::Run(pass)
    } else {
        RecoveryStep::Retry
    }
}

/// After the pass ran, or could not.  A restore counts only once its sync marker is written.
pub fn after_pass(pass: Recovery, ran: bool) -> (step: RecoveryStep)
    ensures
        step == if !ran {
            RecoveryStep::Retry
        } else {
            match pass {
                Recovery::Restore => RecoveryStep::WriteSyncMarker,
                Recovery::RebuildPending => RecoveryStep::Account,
            }
        },
{
    if !ran {
        RecoveryStep::Retry
    } else {
        match pass {
            Recovery::Restore => RecoveryStep::WriteSyncMarker,
            Recovery::RebuildPending => RecoveryStep::Account,
        }
    }
}

/// After the sync marker was written, or not.
pub fn after_sync_marker(written: bool) -> (step: RecoveryStep)
    ensures
        step == if written {
            RecoveryStep::FlipAndAccount
        } else {
            RecoveryStep::Retry
        },
{
    if written {
        RecoveryStep::FlipAndAccount
    } else {
        RecoveryStep::Retry
    }
}

// ---- laws -------------------------------------------------------------------------------------

/// Whether an event is the outcome of an action.
pub open spec fn answers(action: DeleteActionView, event: DeleteEvent) -> bool {
    match action {
        DeleteActionView::LookAtGate => event is GateSeen,
        DeleteActionView::ListNamespace => event is Listed,
        DeleteActionView::CloseGate => event is Closed,
        DeleteActionView::DrainRemote => event is RemoteDrained,
        DeleteActionView::Commit => event is Committed,
        DeleteActionView::DrainData => event is DataDrained,
        DeleteActionView::DrainMeta => event is MetaDrained,
        _ => false,
    }
}

/// The action that is due after some events, each of which answered the one before it.
pub open spec fn due(published: bool, events: Seq<DeleteEvent>) -> Option<DeleteActionView>
    decreases events.len(),
{
    if events.len() == 0 {
        Some(first_of_delete(published))
    } else {
        match due(published, events.drop_last()) {
            Some(action) => if answers(action, events.last()) {
                Some(next_of_delete(events.last()))
            } else {
                None
            },
            None => None,
        }
    }
}

/// The remote bucket is touched only where no write was in flight, the namespace was then listed as
/// empty, and the close then won, that is, nothing was admitted meanwhile.
pub proof fn only_an_empty_bucket_is_drained(published: bool, events: Seq<DeleteEvent>)
    requires
        due(published, events) == Some(DeleteActionView::DrainRemote),
    ensures
        published,
        events.len() == 3,
        events[0] == DeleteEvent::GateSeen(true),
        events[1] == DeleteEvent::Listed(Ok(true)),
        events[2] == DeleteEvent::Closed(true),
{
    reveal_with_fuel(due, 4);
    let one = events.drop_last();
    let two = one.drop_last();
    assert(due(published, one) == Some(DeleteActionView::CloseGate));
    assert(due(published, two) == Some(DeleteActionView::ListNamespace));
    assert(due(published, two.drop_last()) == Some(DeleteActionView::LookAtGate));
    assert(one.last() == events[events.len() - 2]);
    assert(two.last() == events[events.len() - 3]);
}

/// A delete is committed only once the remote bucket is gone, and one that fails there leaves the
/// bucket in service.
pub proof fn a_failed_drain_reopens(published: bool, events: Seq<DeleteEvent>)
    requires
        events.len() > 0,
        events.last() is RemoteDrained,
        due(published, events) is Some,
    ensures
        match events.last() {
            DeleteEvent::RemoteDrained(Ok(_)) => due(published, events) == Some(
                DeleteActionView::Commit,
            ),
            DeleteEvent::RemoteDrained(Err(e)) => due(published, events) == Some(
                DeleteActionView::Reopen(e@),
            ),
            _ => false,
        },
{
}

/// A bucket that owes a recovery is not vouched for, and one of a cached deployment that owes none
/// is; so it is with its shadow bodies, where the bucket is ready.
pub proof fn evidence_or_recovery(cached: bool, synced: bool, clean: bool, shadows_clean: bool)
    ensures
        ({
            let r = resolved(cached, synced, clean, shadows_clean);
            &&& r.recovery is Some ==> !r.accounted
            &&& cached && r.recovery is None ==> r.accounted
            &&& r.sweep ==> !r.shadows_accounted
            &&& cached && synced && !r.sweep ==> r.shadows_accounted
        }),
{
}

/// A bucket is ready exactly where its namespace is synced, and one that is not is restored first.  What
/// the cache holds is accounted for only in a synced bucket, each kind by its own mark.
pub proof fn only_a_synced_bucket_is_ready(
    cached: bool,
    synced: bool,
    clean: bool,
    shadows_clean: bool,
)
    ensures
        ({
            let r = resolved(cached, synced, clean, shadows_clean);
            &&& r.status == BucketStatus::Ready <==> synced
            &&& r.status == BucketStatus::Restoring <==> !synced
            &&& r.recovery == Some(Recovery::Restore) <==> !synced
            &&& r.recovery == Some(Recovery::RebuildPending) <==> synced && cached && !clean
            &&& r.accounted <==> synced && cached && clean
            &&& r.shadows_accounted <==> synced && cached && shadows_clean
            &&& r.sweep <==> synced && cached && !shadows_clean
        }),
{
}

/// A deletion goes on where a step went well, and otherwise says why it does not.  Once the remote has
/// been drained there is no way back: the deletion is committed and both caches are drained.
pub proof fn each_step_of_a_deletion_leads_to_the_next(
    published: bool,
    quiescent: bool,
    empty: bool,
    won: bool,
    e: Error,
)
    ensures
        published ==> first_of_delete(published) == DeleteActionView::LookAtGate,
        !published ==> first_of_delete(published) == DeleteActionView::Refused(
            ErrorView::NoSuchBucket,
        ),
        quiescent ==> next_of_delete(DeleteEvent::GateSeen(quiescent))
            == DeleteActionView::ListNamespace,
        !quiescent ==> next_of_delete(DeleteEvent::GateSeen(quiescent))
            == DeleteActionView::Refused(ErrorView::OperationAborted),
        empty ==> next_of_delete(DeleteEvent::Listed(Ok(empty))) == DeleteActionView::CloseGate,
        !empty ==> next_of_delete(DeleteEvent::Listed(Ok(empty))) == DeleteActionView::Refused(
            ErrorView::BucketNotEmpty,
        ),
        next_of_delete(DeleteEvent::Listed(Err(e))) == DeleteActionView::Refused(e@),
        won ==> next_of_delete(DeleteEvent::Closed(won)) == DeleteActionView::DrainRemote,
        !won ==> next_of_delete(DeleteEvent::Closed(won)) == DeleteActionView::Refused(
            ErrorView::OperationAborted,
        ),
        next_of_delete(DeleteEvent::RemoteDrained(Ok(()))) == DeleteActionView::Commit,
        next_of_delete(DeleteEvent::RemoteDrained(Err(e))) == DeleteActionView::Reopen(e@),
        next_of_delete(DeleteEvent::Committed) == DeleteActionView::DrainData,
        next_of_delete(DeleteEvent::DataDrained) == DeleteActionView::DrainMeta,
        next_of_delete(DeleteEvent::MetaDrained) == DeleteActionView::Deleted,
{
}

/// A page is drained object by object: every key that it has, the gateway's own names among them.
pub proof fn every_key_of_a_page_is_drained(
    a: Seq<ListedObject>,
    b: Seq<ListedObject>,
    one: ListedObject,
)
    ensures
        page_keys(a + b) == page_keys(a) + page_keys(b),
        page_keys(Seq::<ListedObject>::empty()).len() == 0,
        one.key is Some ==> page_keys(seq![one]) == seq![one.key->0@],
        one.key is None ==> page_keys(seq![one]).len() == 0,
    decreases b.len(),
{
    assert(seq![one].drop_last() =~= Seq::<ListedObject>::empty());
    assert(seq![one].last() == one);
    reveal_with_fuel(page_keys, 2);
    if one.key is Some {
        assert(page_keys(seq![one]) =~= seq![one.key->0@]);
    }
    if b.len() == 0 {
        assert(a + b =~= a);
        assert(page_keys(a) + page_keys(b) =~= page_keys(a));
    } else {
        every_key_of_a_page_is_drained(a, b.drop_last(), one);
        assert((a + b).drop_last() =~= a + b.drop_last());
        assert((a + b).last() == b.last());
        assert(page_keys(a + b) =~= page_keys(a) + page_keys(b));
    }
}

/// Of what is drained the clients' keys are counted, and the gateway's own names are not.
pub proof fn only_client_keys_are_counted(
    a: Seq<Seq<char>>,
    b: Seq<Seq<char>>,
    one: Seq<char>,
)
    ensures
        marker_count(a + b) == marker_count(a) + marker_count(b),
        marker_count(Seq::<Seq<char>>::empty()) == 0,
        one.len() > 0 && one[0] == CONTROL ==> marker_count(seq![one]) == 0,
        one.len() == 0 || one[0] != CONTROL ==> marker_count(seq![one]) == 1,
    decreases b.len(),
{
    assert(seq![one].drop_last() =~= Seq::<Seq<char>>::empty());
    assert(seq![one].last() == one);
    reveal_with_fuel(marker_count, 2);
    if b.len() == 0 {
        assert(a + b =~= a);
        
    } else {
        only_client_keys_are_counted(a, b.drop_last(), one);
        assert((a + b).drop_last() =~= a + b.drop_last());
        assert((a + b).last() == b.last());
        
    }
}

/// A listed object is a client's exactly where it has a key and the key is none of the gateway's own.
pub proof fn the_gateways_own_names_are_no_client_objects(o: ListedObject)
    ensures
        o.key is None ==> !is_client_object(o),
        o.key is Some && o.key->0@.len() > 0 && o.key->0@[0] == CONTROL ==> !is_client_object(o),
        o.key is Some && (o.key->0@.len() == 0 || o.key->0@[0] != CONTROL) ==> is_client_object(o),
{
}

/// What is said of a step of a deletion is said of the step itself.
pub proof fn a_step_of_a_deletion_is_seen_as_it_is(x: DeleteAction)
    ensures
        x is LookAtGate <==> x@ is LookAtGate,
        x is ListNamespace <==> x@ is ListNamespace,
        x is CloseGate <==> x@ is CloseGate,
        x is DrainRemote <==> x@ is DrainRemote,
        x is Commit <==> x@ is Commit,
        x is Reopen <==> x@ is Reopen,
        x is Reopen ==> x@->Reopen_0 == x->Reopen_0@,
        x is DrainData <==> x@ is DrainData,
        x is DrainMeta <==> x@ is DrainMeta,
        x is Deleted <==> x@ is Deleted,
        x is Refused <==> x@ is Refused,
        x is Refused ==> x@->Refused_0 == x->Refused_0@,
{
}

/// Keys are seen one by one, in their order.
pub proof fn keys_are_seen_one_by_one(list: Seq<String>, i: int)
    ensures
        key_texts(list).len() == list.len(),
        0 <= i < list.len() ==> key_texts(list)[i] == list[i]@,
{
}

} // verus!
