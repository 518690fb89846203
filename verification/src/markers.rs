//! Delivery of pending markers, and the evidence of a clean shutdown.
//!
//! A write that has been acknowledged cannot fail for want of its marker, so markers wait in a queue
//! until they land.  A run that ends gracefully seals the queue behind its last marker.  That the
//! queue was closed proves nothing: a crash closes it too.

use crate::error::{Error, ErrorView};
use crate::halt::{Invariant, Violation};
use crate::pairs::PairMap;
use vstd::prelude::*;

verus! {

/// How many messages are taken from the queue at a time.
pub const DRAIN_BATCH: usize = 256;

/// What is wrong where a marker's projection is gone under a live bucket.
pub const PROJECTION_LOST: &'static str =
    "an owed marker's <meta> projection is gone while the bucket is still live: the cache volume was lost under a running process, so an acked write's marker can never land and the pending set is short an entry the run still vouches for";

/// A marker that an acknowledged write is owed.
#[derive(Clone, Debug, PartialEq, Eq)]
pub struct OwedMarker {
    pub bucket: String,
    pub key: String,
    /// What identifies the operation.
    pub marker_body: String,
}

pub enum MarkerMsg {
    Owed(OwedMarker),
    /// The run ends gracefully: nothing is queued behind this.
    Seal,
}

/// The markers that are owed after some messages: the last one of a key stands for it.
pub open spec fn owed_after(
    owed: Map<(Seq<char>, Seq<char>), OwedMarker>,
    messages: Seq<MarkerMsg>,
) -> Map<(Seq<char>, Seq<char>), OwedMarker>
    decreases messages.len(),
{
    if messages.len() == 0 {
        owed
    } else {
        let before = owed_after(owed, messages.drop_last());
        match messages.last() {
            MarkerMsg::Owed(m) => before.insert((m.bucket@, m.key@), m),
            MarkerMsg::Seal => before,
        }
    }
}

/// Whether some messages hold a seal.
pub open spec fn seals(messages: Seq<MarkerMsg>) -> bool {
    exists|i: int| 0 <= i < messages.len() && #[trigger] messages[i] is Seal
}

/// The verdict on a run that is over.
pub open spec fn drained(sealed: bool, nothing_owed: bool, cached: bool) -> DrainVerdict {
    if !sealed {
        DrainVerdict::NotSealed
    } else if !nothing_owed {
        DrainVerdict::StillOwed
    } else if cached {
        DrainVerdict::MarkClean
    } else {
        DrainVerdict::NothingToVouchFor
    }
}

/// The end of the queue that writes markers.
pub struct MarkerActor {
    owed: PairMap<OwedMarker>,
    sealed: bool,
}

/// What the actor does after a batch.
#[derive(Clone, Copy, Debug, PartialEq, Eq, Structural)]
pub enum AfterBatch {
    /// Write what is owed, and go on.
    Continue,
    /// Write what is owed, once, and end the run.
    Drain,
}

/// How a run ends.
#[derive(Clone, Copy, Debug, PartialEq, Eq, Structural)]
pub enum DrainVerdict {
    /// Every bucket that the run accounts for gets its clean marker.
    MarkClean,
    /// Markers are still owed, so the run vouches for nothing.
    StillOwed,
    /// The queue was closed without a seal.
    NotSealed,
    /// Nothing is ever pending in this mode.
    NothingToVouchFor,
}

impl MarkerActor {
    pub closed spec fn owed(&self) -> Map<(Seq<char>, Seq<char>), OwedMarker> {
        self.owed@
    }

    pub closed spec fn sealed(&self) -> bool {
        self.sealed
    }

    pub closed spec fn wf(&self) -> bool {
        self.owed.wf()
    }

    pub fn new() -> (actor: Self)
        ensures
            actor.wf(),
            actor.owed() == Map::<(Seq<char>, Seq<char>), OwedMarker>::empty(),
            !actor.sealed(),
    {
        MarkerActor { owed: PairMap::new(), sealed: false }
    }

    /// Owes a marker, in place of an earlier one of the same key.
    pub fn owe(&mut self, marker: OwedMarker)
        requires
            old(self).wf(),
        ensures
            final(self).wf(),
            final(self).owed() == old(self).owed().insert(
                (marker.bucket@, marker.key@),
                marker,
            ),
            final(self).sealed() == old(self).sealed(),
    {
        self.owed.insert(marker.bucket.clone(), marker.key.clone(), marker);
    }

    /// Takes in what the queue held.  An empty batch means that it was closed.
    pub fn receive(&mut self, batch: Vec<MarkerMsg>) -> (after: AfterBatch)
        requires
            old(self).wf(),
        ensures
            final(self).wf(),
            final(self).owed() == owed_after(old(self).owed(), batch@),
            final(self).sealed() == (old(self).sealed() || seals(batch@)),
            after == if batch@.len() == 0 || final(self).sealed() {
                AfterBatch::Drain
            } else {
                AfterBatch::Continue
            },
    {
        let count: usize = batch.len();
        let ghost first = self.owed();
        let ghost was = self.sealed;
        let ghost all = batch@;
        let mut rest: Vec<MarkerMsg> = batch;
        // The messages are taken from the front, so a later marker replaces an earlier one.
        let mut taken: usize = 0;
        assert(all.take(0) =~= Seq::empty());
        assert(all.skip(0) =~= all);
        while taken < count
            invariant
                taken <= count == all.len(),
                rest@ == all.skip(taken as int),
                self.wf(),
                self.owed() == owed_after(first, all.take(taken as int)),
                self.sealed == (was || seals(all.take(taken as int))),
            decreases count - taken,
        {
            let ghost done = all.take(taken as int);
            let message: MarkerMsg = rest.remove(0);
            proof {
                let upto = all.take(taken + 1);
                assert(message == all[taken as int]);
                assert(upto.drop_last() =~= done);
                assert(upto.last() == message);
                assert(rest@ =~= all.skip(taken + 1));
                assert forall|i: int| 0 <= i < done.len() implies done[i] == upto[i] by {}
                if seals(upto) {
                    let i = choose|i: int| 0 <= i < upto.len() && #[trigger] upto[i] is Seal;
                    if i < done.len() {
                        assert(done[i] is Seal);
                    }
                }
                if seals(done) {
                    let i = choose|i: int| 0 <= i < done.len() && #[trigger] done[i] is Seal;
                    assert(upto[i] is Seal);
                }
                if message is Seal {
                    assert(upto[taken as int] is Seal);
                }
            }
            match message {
                MarkerMsg::Owed(m) => {
                    self.owe(m);
                },
                MarkerMsg::Seal => {
                    self.sealed = true;
                },
            }
            taken += 1;
        }
        assert(all.take(taken as int) =~= all);
        if count == 0 || self.sealed {
            AfterBatch::Drain
        } else {
            AfterBatch::Continue
        }
    }

    /// Takes all that is owed, to be written now; what does not land is owed again.
    pub fn take_owed(&mut self) -> (markers: Vec<OwedMarker>)
        requires
            old(self).wf(),
        ensures
            final(self).wf(),
            final(self).owed() == Map::<(Seq<char>, Seq<char>), OwedMarker>::empty(),
            final(self).sealed() == old(self).sealed(),
            markers@.len() == old(self).owed().dom().len(),
            forall|n: (Seq<char>, Seq<char>)| #[trigger]
                old(self).owed().contains_key(n) ==> markers@.contains(old(self).owed()[n]),
            forall|i: int|
                0 <= i < markers@.len() ==> old(self).owed().contains_value(#[trigger] markers@[i]),
    {
        let mut owed: PairMap<OwedMarker> = PairMap::new();
        std::mem::swap(&mut self.owed, &mut owed);
        proof {
            owed.lemma_places();
            owed.pairs().unique_seq_to_set();
        }
        let ghost map = owed@;
        let ghost pairs = owed.pairs();
        let markers: Vec<OwedMarker> = owed.into_values();
        proof {
            assert forall|n: (Seq<char>, Seq<char>)| #[trigger] map.contains_key(n) implies markers@.contains(
                map[n],
            ) by {
                let i = choose|i: int| 0 <= i < pairs.len() && pairs[i] == n;
                assert(markers@[i] == map[n]);
            }
            assert forall|i: int| 0 <= i < markers@.len() implies map.contains_value(
                #[trigger] markers@[i],
            ) by {
                assert(map.contains_key(pairs[i]));
            }
        }
        markers
    }

    /// How many markers are owed.
    pub fn owed_count(&self) -> (count: usize)
        requires
            self.wf(),
        ensures
            count == self.owed().dom().len(),
            count == 0 <==> self.owed() == Map::<(Seq<char>, Seq<char>), OwedMarker>::empty(),
    {
        proof {
            self.owed.lemma_places();
            self.owed.pairs().unique_seq_to_set();
        }
        self.owed.len()
    }

    /// The end of the run.
    pub fn verdict(&self, cached: bool) -> (verdict: DrainVerdict)
        requires
            self.wf(),
        ensures
            verdict == drained(
                self.sealed(),
                self.owed() == Map::<(Seq<char>, Seq<char>), OwedMarker>::empty(),
                cached,
            ),
    {
        if !self.sealed {
            DrainVerdict::NotSealed
        } else if self.owed.len() != 0 {
            DrainVerdict::StillOwed
        } else if cached {
            DrainVerdict::MarkClean
        } else {
            DrainVerdict::NothingToVouchFor
        }
    }

    /// How many buckets the run does not vouch for: all of them, unless the drain earned the clean
    /// markers, and then those that it never accounted for.
    pub fn dirty_at_drain(&self, live: usize, accounted: usize) -> (dirty: usize)
        requires
            self.wf(),
        ensures
            dirty == if self.sealed() && self.owed() == Map::<(Seq<char>, Seq<char>), OwedMarker>::empty() {
                if live > accounted {
                    (live - accounted) as nat
                } else {
                    0
                }
            } else {
                live as nat
            },
    {
        if self.sealed && self.owed.len() == 0 {
            if live > accounted {
                live - accounted
            } else {
                0
            }
        } else {
            live
        }
    }
}

/// What came of an attempt to write one marker.
#[derive(Clone, Debug)]
pub enum WriteFate {
    /// It landed, or its bucket is gone and it never can.
    Settled,
    Retry,
    /// The cache volume was lost under a live bucket.
    Violated(Violation),
}

/// Whether a marker is written at all: one whose bucket is gone is dropped, since to write it could
/// bring back what the delete has drained.
pub fn should_write(bucket_absent: bool) -> (write: bool)
    ensures
        write == !bucket_absent,
{
    !bucket_absent
}

/// Judges an attempt to write a marker.  A projection that is gone while its bucket is live is a
/// lost cache volume; the bucket is looked up again, since a delete may have retired it meanwhile.
pub fn judge_write(
    marker: &OwedMarker,
    failure: Option<&Error>,
    bucket_absent_now: bool,
) -> (fate: WriteFate)
    ensures
        match failure {
            None => fate is Settled,
            Some(e) => if e@ == ErrorView::NoSuchBucket {
                if bucket_absent_now {
                    fate is Settled
                } else {
                    fate matches WriteFate::Violated(v) && v.invariant
                        == Invariant::CacheVolumeLost && v.bucket@ == marker.bucket@ && (
                    v.key matches Some(k) && k@ == marker.key@) && v.detail@ == PROJECTION_LOST@
                }
            } else {
                fate is Retry
            },
        },
{
    match failure {
        None => WriteFate::Settled,
        Some(e) => match e {
            Error::NoSuchBucket => {
                if bucket_absent_now {
                    WriteFate::Settled
                } else {
                    WriteFate::Violated(
                        Violation {
                            invariant: Invariant::CacheVolumeLost,
                            bucket: marker.bucket.clone(),
                            key: Some(marker.key.clone()),
                            detail: PROJECTION_LOST.to_string(),
                        },
                    )
                }
            },
            _ => WriteFate::Retry,
        },
    }
}

// ---- laws -------------------------------------------------------------------------------------

/// Only a seal earns clean markers: whatever came through the queue before it was closed, and
/// whatever of it was written, a run that was not sealed vouches for nothing, and one that was
/// sealed vouches for its buckets only with nothing left owed.
pub proof fn a_closed_queue_proves_nothing(
    messages: Seq<MarkerMsg>,
    left: Map<(Seq<char>, Seq<char>), OwedMarker>,
    cached: bool,
)
    ensures
        !seals(messages) ==> drained(seals(messages), left == Map::<(Seq<char>, Seq<char>), OwedMarker>::empty(), cached)
            == DrainVerdict::NotSealed,
        drained(seals(messages), left == Map::<(Seq<char>, Seq<char>), OwedMarker>::empty(), cached)
            == DrainVerdict::MarkClean ==> seals(messages) && left == Map::<(Seq<char>, Seq<char>), OwedMarker>::empty(),
{
}

/// Batches make no difference: what is owed after two of them is what is owed after one of both.
pub proof fn batches_make_no_difference(
    owed: Map<(Seq<char>, Seq<char>), OwedMarker>,
    a: Seq<MarkerMsg>,
    b: Seq<MarkerMsg>,
)
    ensures
        owed_after(owed, a + b) == owed_after(owed_after(owed, a), b),
    decreases b.len(),
{
    if b.len() == 0 {
        assert(a + b =~= a);
    } else {
        batches_make_no_difference(owed, a, b.drop_last());
        assert((a + b).drop_last() =~= a + b.drop_last());
        assert((a + b).last() == b.last());
    }
}

/// Whether a message queues a marker of a key.
pub open spec fn queues(message: MarkerMsg, bucket: Seq<char>, key: Seq<char>) -> bool {
    message matches MarkerMsg::Owed(m) && m.bucket@ == bucket && m.key@ == key
}

/// Whether the message at `j` is the last that queues a marker of a key.
pub open spec fn queues_last(
    messages: Seq<MarkerMsg>,
    j: int,
    bucket: Seq<char>,
    key: Seq<char>,
) -> bool {
    &&& 0 <= j < messages.len()
    &&& queues(messages[j], bucket, key)
    &&& forall|l: int| j < l < messages.len() ==> !queues(#[trigger] messages[l], bucket, key)
}

/// Every key for which a marker was queued is owed the last one of them, until it is settled.
pub proof fn no_queued_marker_is_lost(
    owed: Map<(Seq<char>, Seq<char>), OwedMarker>,
    messages: Seq<MarkerMsg>,
    i: int,
)
    requires
        0 <= i < messages.len(),
        messages[i] is Owed,
    ensures
        ({
            let m = messages[i]->Owed_0;
            let left = owed_after(owed, messages);
            &&& left.contains_key((m.bucket@, m.key@))
            &&& exists|j: int|
                i <= j && #[trigger] queues_last(messages, j, m.bucket@, m.key@) && left[(
                    m.bucket@,
                    m.key@,
                )] == messages[j]->Owed_0
        }),
    decreases messages.len(),
{
    let m = messages[i]->Owed_0;
    let before = messages.drop_last();
    let last = messages.len() - 1;
    if queues(messages[last], m.bucket@, m.key@) {
        assert(queues_last(messages, last, m.bucket@, m.key@));
    } else {
        assert(before[i] == messages[i]);
        no_queued_marker_is_lost(owed, before, i);
        let j = choose|j: int|
            i <= j && #[trigger] queues_last(before, j, m.bucket@, m.key@) && owed_after(
                owed,
                before,
            )[(m.bucket@, m.key@)] == before[j]->Owed_0;
        assert forall|l: int| j < l < messages.len() implies !queues(
            #[trigger] messages[l],
            m.bucket@,
            m.key@,
        ) by {
            if l < last {
                assert(before[l] == messages[l]);
            }
        }
        assert(queues_last(messages, j, m.bucket@, m.key@));
    }
}

/// The markers of one key leave what is owed to another as it was.
pub proof fn a_key_keeps_its_marker_beside_others(
    owed: Map<(Seq<char>, Seq<char>), OwedMarker>,
    messages: Seq<MarkerMsg>,
    bucket: Seq<char>,
    key: Seq<char>,
)
    requires
        forall|i: int| 0 <= i < messages.len() ==> !queues(#[trigger] messages[i], bucket, key),
    ensures
        owed_after(owed, messages).contains_key((bucket, key)) == owed.contains_key((bucket, key)),
        owed.contains_key((bucket, key)) ==> owed_after(owed, messages)[(bucket, key)] == owed[(
            bucket,
            key,
        )],
    decreases messages.len(),
{
    if messages.len() > 0 {
        let before = messages.drop_last();
        assert forall|i: int| 0 <= i < before.len() implies !queues(
            #[trigger] before[i],
            bucket,
            key,
        ) by {
            assert(messages[i] == before[i]);
        }
        assert(!queues(messages[messages.len() - 1], bucket, key));
        a_key_keeps_its_marker_beside_others(owed, before, bucket, key);
    }
}

/// A message owes its marker under its bucket and its key, beside the others, and a seal owes nothing;
/// a queue is sealed exactly where one of its messages is a seal.
pub proof fn each_message_owes_its_own_marker(
    owed: Map<(Seq<char>, Seq<char>), OwedMarker>,
    message: MarkerMsg,
    a: Seq<MarkerMsg>,
    b: Seq<MarkerMsg>,
)
    ensures
        message is Owed ==> owed_after(owed, seq![message]) == owed.insert(
            (message->Owed_0.bucket@, message->Owed_0.key@),
            message->Owed_0,
        ),
        message is Seal ==> owed_after(owed, seq![message]) == owed,
        owed_after(owed, Seq::empty()) == owed,
        seals(seq![message]) == (message is Seal),
        seals(a + b) == (seals(a) || seals(b)),
        !seals(Seq::empty()),
{
    assert(seq![message].drop_last() =~= Seq::<MarkerMsg>::empty());
    reveal_with_fuel(owed_after, 2);
    assert(seq![message][0] == message);
    if seals(a) {
        let i = choose|i: int| 0 <= i < a.len() && #[trigger] a[i] is Seal;
        assert((a + b)[i] is Seal);
    }
    if seals(b) {
        let i = choose|i: int| 0 <= i < b.len() && #[trigger] b[i] is Seal;
        assert((a + b)[a.len() + i] is Seal);
    }
}

/// A drain vouches for the cache exactly where the queue was sealed, nothing is owed and there is a cache
/// to vouch for.
pub proof fn a_drain_vouches_for_what_it_saw(sealed: bool, nothing_owed: bool, cached: bool)
    ensures
        drained(sealed, nothing_owed, cached) == DrainVerdict::MarkClean <==> sealed && nothing_owed
            && cached,
        drained(sealed, nothing_owed, cached) == DrainVerdict::NotSealed <==> !sealed,
        drained(sealed, nothing_owed, cached) == DrainVerdict::StillOwed <==> sealed && !nothing_owed,
        drained(sealed, nothing_owed, cached) == DrainVerdict::NothingToVouchFor <==> sealed
            && nothing_owed && !cached,
{
}

} // verus!
