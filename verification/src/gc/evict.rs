//! What stands between a candidate and its eviction.
//!
//! The one hazard is to tombstone a body that the remote does not hold in that very generation.  So a
//! body passes three looks: that no pending marker is owed, that the remote holds the generation, and
//! that the body is still the one that was judged when its tombstone is written.  A shadow body is a
//! copy of what the remote gave, and needs the last one only.

use crate::backend::{listed_size, size_of_listed};
use crate::error::{Error, ErrorView};
use crate::gc::scan::{Artifact, ArtifactView, Candidate, CandidateView};
use crate::meta::sentinel::is_composite_etag;
use vstd::prelude::*;

verus! {

/// What is to be done for an eviction.
#[derive(Debug, PartialEq, Eq)]
pub enum EvictAction {
    /// Look for the key's pending marker.
    FindMarker,
    /// Look up the key on the remote, for its length.
    HeadRemote,
    /// Ask the remote whether it holds the candidate's generation.
    CompareGeneration,
    /// Raise the key's pending marker: the remote is owed this generation.
    RaiseMarker,
    /// Write the tombstone, under the key's lock and bound to the candidate's version.
    Tombstone,
    /// Delete the shadow body, bound to the candidate's version.
    DropShadow,
    /// It is over, and gave back so many bytes; zero where the candidate was passed over.
    Done(u64),
    Failed(Error),
}

/// An [`EvictAction`], with text as a sequence.
pub enum EvictActionView {
    FindMarker,
    HeadRemote,
    CompareGeneration,
    RaiseMarker,
    Tombstone,
    DropShadow,
    Done(u64),
    Failed(ErrorView),
}

impl View for EvictAction {
    type V = EvictActionView;

    open spec fn view(&self) -> EvictActionView {
        match *self {
            EvictAction::FindMarker => EvictActionView::FindMarker,
            EvictAction::HeadRemote => EvictActionView::HeadRemote,
            EvictAction::CompareGeneration => EvictActionView::CompareGeneration,
            EvictAction::RaiseMarker => EvictActionView::RaiseMarker,
            EvictAction::Tombstone => EvictActionView::Tombstone,
            EvictAction::DropShadow => EvictActionView::DropShadow,
            EvictAction::Done(bytes) => EvictActionView::Done(bytes),
            EvictAction::Failed(e) => EvictActionView::Failed(e@),
        }
    }
}

/// How an action came out.
pub enum EvictEvent {
    MarkerLookup(Result<(), Error>),
    /// The length that the remote reports.
    RemoteHead(Result<Option<i64>, Error>),
    Comparison(Result<bool, Error>),
    MarkerRaised(Result<(), Error>),
    /// The tombstone is written, or the shadow body deleted.
    Reclaimed(Result<(), Error>),
}

/// Whether a failure says that something is not there.
pub open spec fn absent(e: Error) -> bool {
    e@ == ErrorView::NotFound || e@ == ErrorView::NoSuchBucket
}

/// What comes first.
pub open spec fn first_action(c: CandidateView) -> EvictActionView {
    match c.artifact {
        ArtifactView::Body(_) => EvictActionView::FindMarker,
        ArtifactView::Shadow(_) => EvictActionView::DropShadow,
    }
}

/// What comes after an event.  The framed length that a single-part body of the candidate's size has
/// on the remote is given; a body that has none matches no length.
pub open spec fn next_action(
    c: CandidateView,
    expected_framed: Option<u64>,
    event: EvictEvent,
) -> EvictActionView {
    match event {
        EvictEvent::MarkerLookup(Ok(_)) => EvictActionView::Done(0),
        EvictEvent::MarkerLookup(Err(e)) => if !absent(e) {
            EvictActionView::Failed(e@)
        } else if c.etag.contains('-') {
            EvictActionView::CompareGeneration
        } else {
            EvictActionView::HeadRemote
        },
        EvictEvent::RemoteHead(Ok(length)) => if expected_framed == Some(listed_size(length)) {
            EvictActionView::CompareGeneration
        } else {
            EvictActionView::RaiseMarker
        },
        EvictEvent::RemoteHead(Err(e)) => if absent(e) {
            EvictActionView::RaiseMarker
        } else {
            EvictActionView::Failed(e@)
        },
        EvictEvent::Comparison(Ok(same)) => if same {
            EvictActionView::Tombstone
        } else {
            EvictActionView::RaiseMarker
        },
        EvictEvent::Comparison(Err(e)) => if absent(e) {
            EvictActionView::RaiseMarker
        } else {
            EvictActionView::Failed(e@)
        },
        EvictEvent::MarkerRaised(Ok(_)) => EvictActionView::Done(0),
        EvictEvent::MarkerRaised(Err(e)) => EvictActionView::Failed(e@),
        EvictEvent::Reclaimed(Ok(_)) => EvictActionView::Done(c.bytes),
        EvictEvent::Reclaimed(Err(e)) => if e@ == ErrorView::PreconditionFailed || e@
            == ErrorView::NotFound {
            EvictActionView::Done(0)
        } else {
            EvictActionView::Failed(e@)
        },
    }
}

/// Begins the eviction of a candidate.
pub fn begin_eviction(candidate: &Candidate) -> (action: EvictAction)
    ensures
        action@ == first_action(candidate@),
{
    match &candidate.artifact {
        Artifact::Body(_) => EvictAction::FindMarker,
        Artifact::Shadow(_) => EvictAction::DropShadow,
    }
}

/// Goes on with the eviction of a candidate.
pub fn evict(candidate: &Candidate, expected_framed: Option<u64>, event: EvictEvent) -> (action:
    EvictAction)
    ensures
        action@ == next_action(candidate@, expected_framed, event),
{
    match event {
        EvictEvent::MarkerLookup(Ok(_)) => EvictAction::Done(0),
        EvictEvent::MarkerLookup(Err(e)) => if !e.is_absence() {
            EvictAction::Failed(e)
        } else if is_composite_etag(candidate.etag.as_str()) {
            EvictAction::CompareGeneration
        } else {
            EvictAction::HeadRemote
        },
        EvictEvent::RemoteHead(Ok(length)) => {
            let framed: u64 = size_of_listed(length);
            match expected_framed {
                Some(expected) => if expected == framed {
                    EvictAction::CompareGeneration
                } else {
                    EvictAction::RaiseMarker
                },
                None => EvictAction::RaiseMarker,
            }
        },
        EvictEvent::RemoteHead(Err(e)) => absent_or_failed(e),
        EvictEvent::Comparison(Ok(same)) => if same {
            EvictAction::Tombstone
        } else {
            EvictAction::RaiseMarker
        },
        EvictEvent::Comparison(Err(e)) => absent_or_failed(e),
        EvictEvent::MarkerRaised(Ok(_)) => EvictAction::Done(0),
        EvictEvent::MarkerRaised(Err(e)) => EvictAction::Failed(e),
        EvictEvent::Reclaimed(Ok(_)) => EvictAction::Done(candidate.bytes),
        EvictEvent::Reclaimed(Err(e)) => match e {
            Error::PreconditionFailed => EvictAction::Done(0),
            Error::NotFound => EvictAction::Done(0),
            other => EvictAction::Failed(other),
        },
    }
}

/// What the remote does not hold is owed to it.
fn absent_or_failed(e: Error) -> (action: EvictAction)
    ensures
        action@ == if absent(e) {
            EvictActionView::RaiseMarker
        } else {
            EvictActionView::Failed(e@)
        },
{
    if e.is_absence() {
        EvictAction::RaiseMarker
    } else {
        EvictAction::Failed(e)
    }
}

// ---- laws -------------------------------------------------------------------------------------

/// Whether an event is the outcome of an action.
pub open spec fn answers(action: EvictActionView, event: EvictEvent) -> bool {
    match action {
        EvictActionView::FindMarker => event is MarkerLookup,
        EvictActionView::HeadRemote => event is RemoteHead,
        EvictActionView::CompareGeneration => event is Comparison,
        EvictActionView::RaiseMarker => event is MarkerRaised,
        EvictActionView::Tombstone => event is Reclaimed,
        EvictActionView::DropShadow => event is Reclaimed,
        EvictActionView::Done(_) => false,
        EvictActionView::Failed(_) => false,
    }
}

/// The action that is due after some events, each of which answered the one before it.
pub open spec fn due(c: CandidateView, expected_framed: Option<u64>, events: Seq<EvictEvent>) -> Option<
    EvictActionView,
>
    decreases events.len(),
{
    if events.len() == 0 {
        Some(first_action(c))
    } else {
        match due(c, expected_framed, events.drop_last()) {
            Some(action) => if answers(action, events.last()) {
                Some(next_action(c, expected_framed, events.last()))
            } else {
                None
            },
            None => None,
        }
    }
}

/// A body's tombstone is only ever written where no pending marker was found, the remote's copy had
/// the length of this generation where such a length exists, and the remote then said that it holds
/// the generation.
pub proof fn only_what_the_remote_holds_is_evicted(
    c: CandidateView,
    expected_framed: Option<u64>,
    events: Seq<EvictEvent>,
)
    requires
        due(c, expected_framed, events) == Some(EvictActionView::Tombstone),
    ensures
        events.last() == EvictEvent::Comparison(Ok(true)),
        events[0] matches EvictEvent::MarkerLookup(Err(e)) && absent(e),
        !c.etag.contains('-') ==> events.len() == 3 && (events[1] matches EvictEvent::RemoteHead(
            Ok(length),
        ) && expected_framed == Some(listed_size(length))),
        c.etag.contains('-') ==> events.len() == 2,
{
    reveal_with_fuel(due, 4);
    let one = events.drop_last();
    let two = one.drop_last();
    assert(due(c, expected_framed, one) == Some(EvictActionView::CompareGeneration));
    assert(one.last() == events[events.len() - 2]);
    if two.len() > 0 {
        assert(due(c, expected_framed, two) == Some(EvictActionView::HeadRemote));
        assert(two.last() == events[events.len() - 3]);
        assert(due(c, expected_framed, two.drop_last()) == Some(EvictActionView::FindMarker));
    }
    lemma_marker_comes_first(c, expected_framed, two);
    if two.len() > 0 {
        lemma_marker_comes_first(c, expected_framed, two.drop_last());
    }
}

/// The marker is looked for at the start and never again.
proof fn lemma_marker_comes_first(
    c: CandidateView,
    expected_framed: Option<u64>,
    events: Seq<EvictEvent>,
)
    ensures
        due(c, expected_framed, events) == Some(EvictActionView::FindMarker) ==> events.len() == 0,
{
}

/// Bytes are given back only by a tombstone or a deletion that was bound to the version that was
/// judged, and then all of the candidate's.
pub proof fn only_a_reclaim_gives_bytes_back(
    c: CandidateView,
    expected_framed: Option<u64>,
    events: Seq<EvictEvent>,
    bytes: u64,
)
    requires
        due(c, expected_framed, events) == Some(EvictActionView::Done(bytes)),
        bytes > 0,
    ensures
        bytes == c.bytes,
        events.last() matches EvictEvent::Reclaimed(Ok(_)),
{
}

/// What each answer leads to.  A body with a marker is left alone; one without is looked up on the
/// remote, a composite by its trailer at once; what the remote lacks, or has in another length or
/// another generation, gets a marker, and only what it holds is replaced by its tombstone.  A key that
/// moved meanwhile gives nothing back, and any other failure is handed on.
pub proof fn each_answer_leads_where_it_must(
    c: CandidateView,
    expected_framed: Option<u64>,
    e: Error,
    length: Option<i64>,
)
    ensures
        c.artifact is Body ==> first_action(c) == EvictActionView::FindMarker,
        c.artifact is Shadow ==> first_action(c) == EvictActionView::DropShadow,
        next_action(c, expected_framed, EvictEvent::MarkerLookup(Ok(()))) == EvictActionView::Done(0),
        (e@ == ErrorView::NotFound || e@ == ErrorView::NoSuchBucket) && c.etag.contains('-')
            ==> next_action(c, expected_framed, EvictEvent::MarkerLookup(Err(e)))
            == EvictActionView::CompareGeneration,
        (e@ == ErrorView::NotFound || e@ == ErrorView::NoSuchBucket) && !c.etag.contains('-')
            ==> next_action(c, expected_framed, EvictEvent::MarkerLookup(Err(e)))
            == EvictActionView::HeadRemote,
        (e@ == ErrorView::NotFound || e@ == ErrorView::NoSuchBucket) ==> next_action(
            c,
            expected_framed,
            EvictEvent::RemoteHead(Err(e)),
        ) == EvictActionView::RaiseMarker && next_action(
            c,
            expected_framed,
            EvictEvent::Comparison(Err(e)),
        ) == EvictActionView::RaiseMarker,
        e@ != ErrorView::NotFound && e@ != ErrorView::NoSuchBucket ==> next_action(
            c,
            expected_framed,
            EvictEvent::MarkerLookup(Err(e)),
        ) == EvictActionView::Failed(e@) && next_action(
            c,
            expected_framed,
            EvictEvent::RemoteHead(Err(e)),
        ) == EvictActionView::Failed(e@) && next_action(
            c,
            expected_framed,
            EvictEvent::Comparison(Err(e)),
        ) == EvictActionView::Failed(e@),
        length is Some && length->0 > 0 && expected_framed is Some && expected_framed->0 == length->0
            ==> next_action(c, expected_framed, EvictEvent::RemoteHead(Ok(length)))
            == EvictActionView::CompareGeneration,
        (expected_framed is None || (expected_framed->0 > 0 && (length is None || expected_framed->0
            != length->0))) ==> next_action(
            c,
            expected_framed,
            EvictEvent::RemoteHead(Ok(length)),
        ) == EvictActionView::RaiseMarker,
        next_action(c, expected_framed, EvictEvent::Comparison(Ok(true)))
            == EvictActionView::Tombstone,
        next_action(c, expected_framed, EvictEvent::Comparison(Ok(false)))
            == EvictActionView::RaiseMarker,
        next_action(c, expected_framed, EvictEvent::MarkerRaised(Ok(()))) == EvictActionView::Done(0),
        next_action(c, expected_framed, EvictEvent::MarkerRaised(Err(e))) == EvictActionView::Failed(
            e@,
        ),
        next_action(c, expected_framed, EvictEvent::Reclaimed(Ok(()))) == EvictActionView::Done(
            c.bytes,
        ),
        e@ == ErrorView::PreconditionFailed || e@ == ErrorView::NotFound ==> next_action(
            c,
            expected_framed,
            EvictEvent::Reclaimed(Err(e)),
        ) == EvictActionView::Done(0),
        e@ != ErrorView::PreconditionFailed && e@ != ErrorView::NotFound ==> next_action(
            c,
            expected_framed,
            EvictEvent::Reclaimed(Err(e)),
        ) == EvictActionView::Failed(e@),
{
}

/// What is said of a step of an eviction is said of the step itself.
pub proof fn a_step_of_an_eviction_is_seen_as_it_is(x: EvictAction)
    ensures
        x is FindMarker <==> x@ is FindMarker,
        x is HeadRemote <==> x@ is HeadRemote,
        x is CompareGeneration <==> x@ is CompareGeneration,
        x is RaiseMarker <==> x@ is RaiseMarker,
        x is Tombstone <==> x@ is Tombstone,
        x is DropShadow <==> x@ is DropShadow,
        x is Done <==> x@ is Done,
        x is Done ==> x@->Done_0 == x->Done_0,
        x is Failed <==> x@ is Failed,
        x is Failed ==> x@->Failed_0 == x->Failed_0@,
{
}

} // verus!
