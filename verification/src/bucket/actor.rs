//! The bucket actor's books: what waits for a bucket, which buckets are being worked on, and who
//! waits for a bucket's cache projections.
//!
//! A bucket is worked on by one task at a time, which takes everything that waits for it.  What comes
//! meanwhile waits for the next task, so a bucket's requests run in the order in which they came.

use crate::names::NameMap;
use vstd::prelude::*;

verus! {

/// How many buckets are worked on at a time.
pub const MAX_CONCURRENT: usize = 16;

/// How many requests may wait for one bucket.
pub const MAX_QUEUED_BUCKET_REQUESTS: usize = 4;

/// How long a recovery that could not run waits before it is queued again, in milliseconds.
pub const RECOVERY_RETRY_MS: u64 = 5_000;

/// What brings a bucket's cache back into agreement with the remote.
#[derive(Clone, Copy, Debug, PartialEq, Eq, Structural)]
pub enum Recovery {
    /// The namespace is gone.
    Restore,
    /// The pending set is in doubt.
    RebuildPending,
}

/// A request, with the number of the caller who waits for its answer.
#[derive(Clone, Copy, Debug, PartialEq, Eq, Structural)]
pub enum LifecycleRequest {
    Create(u64),
    Delete(u64),
}

/// What waits for a bucket.  There is one slot for a recovery, so never two of them.
#[derive(Clone, Debug, PartialEq, Eq)]
pub struct QueuedWork {
    pub requests: Vec<LifecycleRequest>,
    pub recovery: Option<Recovery>,
}

/// [`QueuedWork`], with the requests as a sequence.
#[verifier::ext_equal]
pub struct WorkView {
    pub requests: Seq<LifecycleRequest>,
    pub recovery: Option<Recovery>,
}

impl View for QueuedWork {
    type V = WorkView;

    open spec fn view(&self) -> WorkView {
        WorkView { requests: self.requests@, recovery: self.recovery }
    }
}

/// Nothing to do.
pub open spec fn no_work() -> WorkView {
    WorkView { requests: Seq::empty(), recovery: None }
}

/// What waits for a bucket.
pub open spec fn waiting(queued: Map<Seq<char>, QueuedWork>, bucket: Seq<char>) -> WorkView {
    if queued.contains_key(bucket) {
        queued[bucket]@
    } else {
        no_work()
    }
}

/// Whether a bucket has work to do and no task that does it.
pub open spec fn dispatchable(
    queued: Map<Seq<char>, QueuedWork>,
    running: Set<Seq<char>>,
    bucket: Seq<char>,
) -> bool {
    waiting(queued, bucket) != no_work() && !running.contains(bucket)
}

/// What a request for a bucket's cache projections leads to.
#[derive(Clone, Copy, Debug, PartialEq, Eq, Structural)]
pub enum ProvisionStep {
    /// They exist: the caller is answered at once.
    Answer,
    /// They are being made: the caller waits for the one who asked first.
    Wait,
    /// They are to be made.
    Start,
}

pub struct BucketActor {
    queued: NameMap<QueuedWork>,
    running: NameMap<()>,
    provisioning: NameMap<Vec<u64>>,
    open: bool,
}

impl BucketActor {
    /// What waits.
    pub closed spec fn queued(&self) -> Map<Seq<char>, QueuedWork> {
        self.queued@
    }

    /// The buckets with a task.
    pub closed spec fn running(&self) -> Set<Seq<char>> {
        self.running@.dom()
    }

    /// Who waits for which bucket's projections.
    pub closed spec fn provisioning(&self) -> Map<Seq<char>, Vec<u64>> {
        self.provisioning@
    }

    /// Whether new work is taken.
    pub closed spec fn open(&self) -> bool {
        self.open
    }

    pub closed spec fn wf(&self) -> bool {
        self.queued.wf() && self.running.wf() && self.provisioning.wf()
    }

    pub fn new() -> (actor: Self)
        ensures
            actor.wf(),
            actor.queued() == Map::<Seq<char>, QueuedWork>::empty(),
            actor.running() == Set::<Seq<char>>::empty(),
            actor.provisioning() == Map::<Seq<char>, Vec<u64>>::empty(),
            actor.open(),
    {
        let actor = BucketActor {
            queued: NameMap::new(),
            running: NameMap::new(),
            provisioning: NameMap::new(),
            open: true,
        };
        assert(actor.running() =~= Set::<Seq<char>>::empty());
        actor
    }

    /// Stops taking new work.  What waits still runs.
    pub fn close(&mut self)
        requires
            old(self).wf(),
        ensures
            final(self).wf(),
            !final(self).open(),
            final(self).queued() == old(self).queued(),
            final(self).running() == old(self).running(),
            final(self).provisioning() == old(self).provisioning(),
    {
        self.open = false;
    }

    /// Whether the actor is done: no new work is taken, and none waits or runs.
    pub fn is_done(&self) -> (done: bool)
        requires
            self.wf(),
        ensures
            done == (!self.open() && self.queued() == Map::<Seq<char>, QueuedWork>::empty()
                && self.running() == Set::<Seq<char>>::empty() && self.provisioning() == Map::<
                Seq<char>,
                Vec<u64>,
            >::empty()),
    {
        proof {
            let r = self.running@;
            if r == Map::<Seq<char>, ()>::empty() {
                assert(r.dom() =~= Set::<Seq<char>>::empty());
            }
            if r.dom() == Set::<Seq<char>>::empty() {
                assert(r =~= Map::<Seq<char>, ()>::empty());
            }
        }
        !self.open && self.queued.len() == 0 && self.running.len() == 0 && self.provisioning.len()
            == 0
    }

    /// What waits for a bucket, taken out.
    fn take_work(&mut self, bucket: &str) -> (work: QueuedWork)
        requires
            old(self).wf(),
        ensures
            final(self).wf(),
            work@ == waiting(old(self).queued(), bucket@),
            final(self).queued() == old(self).queued().remove(bucket@),
            final(self).running() == old(self).running(),
            final(self).provisioning() == old(self).provisioning(),
            final(self).open() == old(self).open(),
    {
        match self.queued.remove(bucket) {
            Some(work) => work,
            None => {
                let work = QueuedWork { requests: Vec::new(), recovery: None };
                assert(work@ =~= no_work());
                work
            },
        }
    }

    /// Queues a request behind those that wait for its bucket.  `false` where too many do: the caller
    /// is to be told to slow down.
    pub fn enqueue_request(&mut self, bucket: String, request: LifecycleRequest) -> (taken: bool)
        requires
            old(self).wf(),
        ensures
            final(self).wf(),
            taken == (waiting(old(self).queued(), bucket@).requests.len()
                < MAX_QUEUED_BUCKET_REQUESTS),
            waiting(final(self).queued(), bucket@) == if taken {
                WorkView {
                    requests: waiting(old(self).queued(), bucket@).requests.push(request),
                    recovery: waiting(old(self).queued(), bucket@).recovery,
                }
            } else {
                waiting(old(self).queued(), bucket@)
            },
            forall|b: Seq<char>|
                b != bucket@ ==> #[trigger] waiting(final(self).queued(), b) == waiting(
                    old(self).queued(),
                    b,
                ),
            final(self).running() == old(self).running(),
            final(self).provisioning() == old(self).provisioning(),
            final(self).open() == old(self).open(),
    {
        let mut work: QueuedWork = self.take_work(bucket.as_str());
        let taken: bool = work.requests.len() < MAX_QUEUED_BUCKET_REQUESTS;
        let ghost before = work@;
        if taken {
            work.requests.push(request);
            assert(work@ =~= WorkView {
                requests: before.requests.push(request),
                recovery: before.recovery,
            });
        }
        self.queued.insert(bucket, work);
        taken
    }

    /// Queues a recovery in its bucket's slot.
    pub fn enqueue_recovery(&mut self, bucket: String, pass: Recovery)
        requires
            old(self).wf(),
        ensures
            final(self).wf(),
            waiting(final(self).queued(), bucket@) == (WorkView {
                requests: waiting(old(self).queued(), bucket@).requests,
                recovery: Some(pass),
            }),
            forall|b: Seq<char>|
                b != bucket@ ==> #[trigger] waiting(final(self).queued(), b) == waiting(
                    old(self).queued(),
                    b,
                ),
            final(self).running() == old(self).running(),
            final(self).provisioning() == old(self).provisioning(),
            final(self).open() == old(self).open(),
    {
        let mut work: QueuedWork = self.take_work(bucket.as_str());
        work.recovery = Some(pass);
        self.queued.insert(bucket, work);
    }

    /// Asks for a bucket's cache projections on behalf of a caller.  However many callers ask, the
    /// backend is asked once.
    pub fn provision(&mut self, bucket: &str, caller: u64, provisioned: bool) -> (step: ProvisionStep)
        requires
            old(self).wf(),
        ensures
            final(self).wf(),
            step == if provisioned {
                ProvisionStep::Answer
            } else if old(self).provisioning().contains_key(bucket@) {
                ProvisionStep::Wait
            } else {
                ProvisionStep::Start
            },
            provisioned ==> final(self).provisioning() == old(self).provisioning(),
            !provisioned ==> {
                &&& final(self).provisioning().contains_key(bucket@)
                &&& final(self).provisioning()[bucket@]@ == (if old(
                    self,
                ).provisioning().contains_key(bucket@) {
                    old(self).provisioning()[bucket@]@
                } else {
                    Seq::empty()
                }).push(caller)
                &&& final(self).provisioning().remove(bucket@) == old(self).provisioning().remove(
                    bucket@,
                )
            },
            final(self).queued() == old(self).queued(),
            final(self).running() == old(self).running(),
            final(self).open() == old(self).open(),
    {
        if provisioned {
            return ProvisionStep::Answer;
        }
        let (mut waiters, step) = match self.provisioning.remove(bucket) {
            Some(waiters) => (waiters, ProvisionStep::Wait),
            None => (Vec::new(), ProvisionStep::Start),
        };
        let ghost first = waiters@;
        waiters.push(caller);
        self.provisioning.insert(bucket.to_string(), waiters);
        proof {
            assert(first =~= if old(self).provisioning().contains_key(bucket@) {
                old(self).provisioning()[bucket@]@
            } else {
                Seq::empty()
            });
            assert(self.provisioning().remove(bucket@) =~= old(self).provisioning().remove(
                bucket@,
            ));
        }
        step
    }

    /// The making of a bucket's projections ended, well or not: the callers to be answered.  The next
    /// caller asks anew.
    pub fn finish_provision(&mut self, bucket: &str) -> (waiters: Vec<u64>)
        requires
            old(self).wf(),
        ensures
            final(self).wf(),
            waiters@ == if old(self).provisioning().contains_key(bucket@) {
                old(self).provisioning()[bucket@]@
            } else {
                Seq::empty()
            },
            final(self).provisioning() == old(self).provisioning().remove(bucket@),
            final(self).queued() == old(self).queued(),
            final(self).running() == old(self).running(),
            final(self).open() == old(self).open(),
    {
        match self.provisioning.remove(bucket) {
            Some(waiters) => waiters,
            None => {
                let waiters: Vec<u64> = Vec::new();
                assert(waiters@ =~= Seq::empty());
                waiters
            },
        }
    }

    /// A bucket's task ended, well or not: the bucket can be given to the next one.
    pub fn finish_batch(&mut self, bucket: &str)
        requires
            old(self).wf(),
        ensures
            final(self).wf(),
            final(self).running() == old(self).running().remove(bucket@),
            final(self).queued() == old(self).queued(),
            final(self).provisioning() == old(self).provisioning(),
            final(self).open() == old(self).open(),
    {
        let _ended: Option<()> = self.running.remove(bucket);
        assert(self.running() =~= old(self).running().remove(bucket@));
    }

    /// Takes all that waits for a bucket that has no task, and gives it to one.  `None` where there is
    /// no such bucket.
    pub fn dispatch(&mut self) -> (batch: Option<(String, QueuedWork)>)
        requires
            old(self).wf(),
        ensures
            final(self).wf(),
            match batch {
                Some((bucket, work)) => {
                    &&& dispatchable(old(self).queued(), old(self).running(), bucket@)
                    &&& work@ == waiting(old(self).queued(), bucket@)
                    &&& final(self).queued() == old(self).queued().remove(bucket@)
                    &&& final(self).running() == old(self).running().insert(bucket@)
                },
                None => {
                    &&& forall|b: Seq<char>|
                        !#[trigger] dispatchable(old(self).queued(), old(self).running(), b)
                    &&& final(self).queued() == old(self).queued()
                    &&& final(self).running() == old(self).running()
                },
            },
            final(self).provisioning() == old(self).provisioning(),
            final(self).open() == old(self).open(),
    {
        let total: usize = self.queued.len();
        let ghost names = self.queued.names();
        let mut i: usize = 0;
        while i < total
            invariant
                i <= total == names.len(),
                self.wf(),
                *self == *old(self),
                names == self.queued.names(),
                forall|k: int|
                    0 <= k < i ==> !dispatchable(
                        self.queued(),
                        self.running(),
                        #[trigger] names[k],
                    ),
            decreases total - i,
        {
            let name: String = self.queued.name_at(i).clone();
            let work: &QueuedWork = self.queued.value_at(i);
            let idle: bool = work.requests.len() == 0 && work.recovery.is_none();
            proof {
                assert(*work == self.queued()[name@]);
                if idle {
                    assert(work@ =~= no_work());
                } else {
                    assert(work@.requests.len() > 0 || work@.recovery is Some);
                }
            }
            if !idle && !self.running.contains_key(name.as_str()) {
                let batch: QueuedWork = self.take_work(name.as_str());
                let bucket: String = name.clone();
                self.running.insert(name, ());
                assert(self.running() =~= old(self).running().insert(bucket@));
                return Some((bucket, batch));
            }
            i += 1;
        }
        proof {
            self.queued.lemma_places();
            assert forall|b: Seq<char>|
                !#[trigger] dispatchable(self.queued(), self.running(), b) by {
                if self.queued().contains_key(b) {
                    let k = choose|k: int| 0 <= k < names.len() && names[k] == b;
                    assert(!dispatchable(self.queued(), self.running(), names[k]));
                }
            }
        }
        None
    }
}

// ---- laws -------------------------------------------------------------------------------------

/// A bucket that has a task is given to no other, whatever waits for it.
pub proof fn a_bucket_has_one_task(
    queued: Map<Seq<char>, QueuedWork>,
    running: Set<Seq<char>>,
    bucket: Seq<char>,
)
    requires
        running.contains(bucket),
    ensures
        !dispatchable(queued, running, bucket),
{
}

/// A bucket's work is handed out exactly where there is some, a request or a pass, and no task of the
/// bucket runs; what is waiting is what was queued under the bucket's own name.
pub proof fn waiting_work_is_handed_out(
    queued: Map<Seq<char>, QueuedWork>,
    running: Set<Seq<char>>,
    bucket: Seq<char>,
)
    ensures
        dispatchable(queued, running, bucket) <==> queued.contains_key(bucket) && (
        queued[bucket].requests@.len() > 0 || queued[bucket].recovery is Some) && !running.contains(
            bucket,
        ),
        queued.contains_key(bucket) ==> waiting(queued, bucket).requests == queued[bucket].requests@
            && waiting(queued, bucket).recovery == queued[bucket].recovery,
        !queued.contains_key(bucket) ==> waiting(queued, bucket).requests.len() == 0 && waiting(
            queued,
            bucket,
        ).recovery is None,
{
    if queued.contains_key(bucket) && queued[bucket].requests@.len() == 0
        && queued[bucket].recovery is None {
        assert(queued[bucket].requests@ =~= Seq::<LifecycleRequest>::empty());
        assert(waiting(queued, bucket) == no_work());
    }
}

/// What is said of queued work is said of its own requests and pass.
pub proof fn queued_work_is_seen_as_it_is(x: QueuedWork)
    ensures
        x@.requests == x.requests@,
        x@.recovery == x.recovery,
{
}

} // verus!
