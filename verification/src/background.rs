//! Bounded, deduplicated, cancellable rehydration of evicted objects.
//!
//! A read has already been served from the remote, so a rehydration only saves a later read: under
//! load it is shed, and a client's write cancels it.

use crate::error::{Error, ErrorView};
use crate::gc::ring::{qualified, qualified_name};
use crate::meta::metadata::Metadata;
use crate::meta::sentinel::{is_composite_etag, tomb_kind, tomb_named, TombKind};
use crate::meta::user::{passes_through, passthrough_metadata, CETAG};
use crate::registry::{entries_of, registry_get, registry_insert, registry_new, registry_remove};
use crate::text::same_text;
use dashmap::DashMap;
use vstd::prelude::*;

verus! {

/// Work that fetches an object back into the cache.
#[derive(Clone, Debug, PartialEq, Eq)]
pub enum Transition {
    /// `cetag` names the generation that the read saw.
    Rehydrate { bucket: String, key: String, cetag: String, plen: u64 },
}

/// The name that a transition is registered under.  No bucket name holds a slash.
pub open spec fn registered(t: Transition) -> Seq<char> {
    match t {
        Transition::Rehydrate { bucket, key, .. } => qualified_name(bucket@, key@),
    }
}

impl Transition {
    fn registry_key(&self) -> (name: String)
        ensures
            name@ == registered(*self),
    {
        match self {
            Transition::Rehydrate { bucket, key, .. } => qualified(bucket.as_str(), key.as_str()),
        }
    }
}

/// Whether one of the first `n` transitions of a queue has a name.
pub open spec fn among(queue: Seq<Transition>, n: int, name: Seq<char>) -> bool {
    exists|i: int| 0 <= i < n && registered(#[trigger] queue[i]) == name
}

/// What the actor does with the next transition.
pub enum NextTransition {
    Idle,
    /// It was cancelled while it was queued.
    Dropped,
    Start(Transition),
}

/// Which names have a transition, and whether it has been cancelled.
struct Registry {
    /// The first number of a pair is 1 where the transition has been cancelled, and 0 where not.
    names: DashMap<String, (u64, u64)>,
}

impl View for Registry {
    type V = Map<Seq<char>, bool>;

    closed spec fn view(&self) -> Map<Seq<char>, bool> {
        Map::new(
            |n: Seq<char>| entries_of(self.names).contains_key(n),
            |n: Seq<char>| entries_of(self.names)[n].0 == 1,
        )
    }
}

impl Registry {
    fn new() -> (registry: Self)
        ensures
            registry@ == Map::<Seq<char>, bool>::empty(),
    {
        let registry = Registry { names: registry_new() };
        assert(registry@ =~= Map::<Seq<char>, bool>::empty());
        registry
    }

    fn get(&self, name: &str) -> (cancelled: Option<bool>)
        ensures
            match cancelled {
                Some(c) => self@.contains_key(name@) && c == self@[name@],
                None => !self@.contains_key(name@),
            },
    {
        match registry_get(&self.names, name) {
            Some(pair) => Some(pair.0 == 1),
            None => None,
        }
    }

    fn insert(&mut self, name: String, cancelled: bool)
        ensures
            final(self)@ == old(self)@.insert(name@, cancelled),
    {
        let ghost before = self@;
        let ghost n = name@;
        let flag: u64 = if cancelled {
            1
        } else {
            0
        };
        registry_insert(&mut self.names, name, (flag, 0));
        assert(self@ =~= before.insert(n, cancelled));
    }

    fn remove(&mut self, name: &str)
        ensures
            final(self)@ == old(self)@.remove(name@),
    {
        let ghost before = self@;
        registry_remove(&mut self.names, name);
        assert(self@ =~= before.remove(name@));
    }
}

/// The transitions that are queued or running.
pub struct Background {
    /// Which names have one, and whether it has been cancelled.
    live: Registry,
    queue: Vec<Transition>,
    depth: usize,
    closed: bool,
}

impl Background {
    pub closed spec fn live(&self) -> Map<Seq<char>, bool> {
        self.live@
    }

    pub closed spec fn queue(&self) -> Seq<Transition> {
        self.queue@
    }

    pub closed spec fn depth(&self) -> nat {
        self.depth as nat
    }

    pub closed spec fn closed(&self) -> bool {
        self.closed
    }

    /// The queue is bounded, every queued transition is registered, and no name is queued twice.
    pub open spec fn sound(&self) -> bool {
        &&& self.queue().len() <= self.depth()
        &&& forall|i: int|
            0 <= i < self.queue().len() ==> self.live().contains_key(
                registered(#[trigger] self.queue()[i]),
            )
        &&& forall|i: int, j: int|
            0 <= i < j < self.queue().len() ==> registered(#[trigger] self.queue()[i])
                != registered(#[trigger] self.queue()[j])
    }

    /// Whether a name is queued.
    pub open spec fn queued(&self, name: Seq<char>) -> bool {
        among(self.queue(), self.queue().len() as int, name)
    }

    pub fn new(queue_depth: usize) -> (background: Self)
        ensures
            background.sound(),
            background.live() == Map::<Seq<char>, bool>::empty(),
            background.queue() == Seq::<Transition>::empty(),
            background.depth() == if queue_depth == 0 {
                1
            } else {
                queue_depth as nat
            },
            !background.closed(),
    {
        Background {
            live: Registry::new(),
            queue: Vec::new(),
            depth: if queue_depth == 0 {
                1
            } else {
                queue_depth
            },
            closed: false,
        }
    }

    /// Queues a transition, unless its key has one.  It never waits: a full queue drops it.
    pub fn submit(&mut self, transition: Transition)
        requires
            old(self).sound(),
        ensures
            final(self).sound(),
            final(self).depth() == old(self).depth(),
            final(self).closed() == old(self).closed(),
            if old(self).live().contains_key(registered(transition)) || old(self).closed() || old(
                self,
            ).queue().len() >= old(self).depth() {
                final(self).live() == old(self).live() && final(self).queue() == old(self).queue()
            } else {
                &&& final(self).live() == old(self).live().insert(registered(transition), false)
                &&& final(self).queue() == old(self).queue().push(transition)
            },
    {
        let name: String = transition.registry_key();
        if self.live.get(name.as_str()).is_some() {
            return;
        }
        if self.closed || self.queue.len() >= self.depth {
            return;
        }
        let ghost before = *self;
        self.live.insert(name, false);
        self.queue.push(transition);
        proof {
            assert forall|i: int| 0 <= i < before.queue().len() implies self.queue()[i]
                == before.queue()[i] && registered(#[trigger] self.queue()[i]) != registered(
                transition,
            ) by {
                assert(before.live().contains_key(registered(before.queue()[i])));
            }
        }
    }

    /// Tells a queued or running transition of a key to stop.
    pub fn cancel(&mut self, bucket: &str, key: &str)
        requires
            old(self).sound(),
        ensures
            final(self).sound(),
            final(self).depth() == old(self).depth(),
            final(self).closed() == old(self).closed(),
            final(self).queue() == old(self).queue(),
            final(self).live() == if old(self).live().contains_key(qualified_name(bucket@, key@)) {
                old(self).live().insert(qualified_name(bucket@, key@), true)
            } else {
                old(self).live()
            },
    {
        let name: String = qualified(bucket, key);
        if self.live.get(name.as_str()).is_some() {
            self.live.insert(name, true);
        }
    }

    /// Whether a key has a transition.
    pub fn is_live(&self, bucket: &str, key: &str) -> (live: bool)
        ensures
            live == self.live().contains_key(qualified_name(bucket@, key@)),
    {
        let name: String = qualified(bucket, key);
        self.live.get(name.as_str()).is_some()
    }

    /// Whether the transition of a key has been told to stop.
    pub fn is_cancelled(&self, bucket: &str, key: &str) -> (cancelled: bool)
        ensures
            cancelled == (self.live().contains_key(qualified_name(bucket@, key@)) && self.live()[
                qualified_name(bucket@, key@)
            ]),
    {
        let name: String = qualified(bucket, key);
        match self.live.get(name.as_str()) {
            Some(flag) => flag,
            None => false,
        }
    }

    /// Takes the next transition off the queue.
    pub fn next(&mut self) -> (next: NextTransition)
        requires
            old(self).sound(),
        ensures
            final(self).sound(),
            final(self).depth() == old(self).depth(),
            final(self).closed() == old(self).closed(),
            if old(self).queue().len() == 0 {
                next is Idle && final(self).live() == old(self).live() && final(self).queue()
                    == old(self).queue()
            } else {
                let t = old(self).queue()[0];
                &&& final(self).queue() == old(self).queue().skip(1)
                &&& if old(self).live()[registered(t)] {
                    next is Dropped && final(self).live() == old(self).live().remove(registered(t))
                } else {
                    next == NextTransition::Start(t) && final(self).live() == old(self).live()
                }
            },
    {
        if self.queue.len() == 0 {
            return NextTransition::Idle;
        }
        let ghost before = *self;
        let transition: Transition = self.queue.remove(0);
        let name: String = transition.registry_key();
        assert(self.queue() =~= before.queue().skip(1));
        proof {
            assert(transition == before.queue()[0]);
            assert forall|i: int| 0 <= i < self.queue().len() implies registered(
                #[trigger] self.queue()[i],
            ) != name@ by {
                assert(self.queue()[i] == before.queue()[i + 1]);
            }
            assert forall|i: int, j: int| 0 <= i < j < self.queue().len() implies registered(
                #[trigger] self.queue()[i],
            ) != registered(#[trigger] self.queue()[j]) by {
                assert(self.queue()[i] == before.queue()[i + 1]);
                assert(self.queue()[j] == before.queue()[j + 1]);
            }
        }
        let cancelled: bool = match self.live.get(name.as_str()) {
            Some(flag) => flag,
            None => false,
        };
        if cancelled {
            self.live.remove(name.as_str());
            NextTransition::Dropped
        } else {
            NextTransition::Start(transition)
        }
    }

    /// A transition that was started has ended, or was given up before it began.
    pub fn finished(&mut self, transition: &Transition)
        requires
            old(self).sound(),
            !old(self).queued(registered(*transition)),
        ensures
            final(self).sound(),
            final(self).depth() == old(self).depth(),
            final(self).closed() == old(self).closed(),
            final(self).queue() == old(self).queue(),
            final(self).live() == old(self).live().remove(registered(*transition)),
    {
        let name: String = transition.registry_key();
        self.live.remove(name.as_str());
    }

    /// At shutdown what is queued is shed: once nobody reads, a rehydration saves nothing.
    pub fn abandon_queued(&mut self)
        requires
            old(self).sound(),
        ensures
            final(self).sound(),
            final(self).closed(),
            final(self).depth() == old(self).depth(),
            final(self).queue() == Seq::<Transition>::empty(),
            forall|n: Seq<char>|
                final(self).live().contains_key(n) == (old(self).live().contains_key(n) && !old(
                    self,
                ).queued(n)),
            forall|n: Seq<char>| #[trigger]
                final(self).live().contains_key(n) ==> final(self).live()[n] == old(self).live()[n],
    {
        let ghost before = *self;
        self.closed = true;
        let count: usize = self.queue.len();
        let mut i: usize = 0;
        while i < count
            invariant
                i <= count == self.queue@.len(),
                self.queue@ == before.queue@,
                self.depth == before.depth,
                self.closed,
                forall|n: Seq<char>| #[trigger]
                    self.live@.contains_key(n) == (before.live@.contains_key(n) && !among(
                        before.queue@,
                        i as int,
                        n,
                    )),
                forall|n: Seq<char>| #[trigger]
                    self.live@.contains_key(n) ==> self.live@[n] == before.live@[n],
            decreases count - i,
        {
            let name: String = self.queue[i].registry_key();
            let ghost prior = self.live@;
            self.live.remove(name.as_str());
            proof {
                assert forall|n: Seq<char>| #[trigger] self.live@.contains_key(n) == (
                before.live@.contains_key(n) && !among(before.queue@, i + 1, n)) by {
                    assert(prior.contains_key(n) == (before.live@.contains_key(n) && !among(
                        before.queue@,
                        i as int,
                        n,
                    )));
                    assert(registered(before.queue@[i as int]) == name@);
                    if among(before.queue@, i + 1, n) {
                        let k = choose|k: int|
                            0 <= k < i + 1 && registered(#[trigger] before.queue@[k]) == n;
                        if k < i {
                            assert(among(before.queue@, i as int, n));
                        }
                    }
                    if among(before.queue@, i as int, n) {
                        let k = choose|k: int|
                            0 <= k < i && registered(#[trigger] before.queue@[k]) == n;
                        assert(among(before.queue@, i + 1, n));
                    }
                }
            }
            i += 1;
        }
        self.queue = Vec::new();
        assert(self.queue() =~= Seq::<Transition>::empty());
    }
}

// ---- one rehydration --------------------------------------------------------------------------

/// What the lookup of the evicted key found.
pub enum TombLookup {
    Found(Option<Metadata>),
    Failed(Error),
}

/// What a rehydration does next, under the key's lock.
pub enum RehydrateStep {
    Stop,
    /// A composite goes to the key's shadow; one that is there already is not fetched again.
    CheckShadow,
    LandShadow,
    /// A single-part body goes to the key itself, with what the client gave it.
    LandSingle(Metadata),
    /// The key is live again, and its twin is stale: this is not to be cancelled.
    DeleteTwins,
    Fail(Error),
}

/// Whether a tombstone is still the one that a read saw.
pub open spec fn is_generation(md: Map<Seq<char>, Seq<char>>, cetag: Seq<char>) -> bool {
    &&& tomb_named(md) == Some(TombKind::Evict)
    &&& md.contains_key(CETAG@)
    &&& md[CETAG@] == cetag
}

/// Whether a rehydration that was just given the key's lock goes on.
pub fn begin(cancelled: bool) -> (go: bool)
    ensures
        go == !cancelled,
{
    !cancelled
}

/// Judges the key that is to be rehydrated.  A write or a delete may have replaced the tombstone,
/// and an eviction afresh carries another generation under the same sentinel, so the tombstone's
/// own ETag must still be the one that the read saw.
pub fn judge(lookup: TombLookup, cetag: &str) -> (step: RehydrateStep)
    requires
        lookup matches TombLookup::Found(Some(md)) ==> md.wf(),
    ensures
        match lookup {
            TombLookup::Failed(e) => if e@ == ErrorView::NotFound {
                step is Stop
            } else {
                step == RehydrateStep::Fail(e)
            },
            TombLookup::Found(None) => step is Stop,
            TombLookup::Found(Some(md)) => if !is_generation(md@, cetag@) {
                step is Stop
            } else if cetag@.contains('-') {
                step is CheckShadow
            } else {
                step matches RehydrateStep::LandSingle(kept) && kept.wf() && kept@
                    == md@.restrict(Set::new(|name: Seq<char>| passes_through(name)))
            },
        },
{
    match lookup {
        TombLookup::Failed(e) => match e {
            Error::NotFound => RehydrateStep::Stop,
            other => RehydrateStep::Fail(other),
        },
        TombLookup::Found(None) => RehydrateStep::Stop,
        TombLookup::Found(Some(md)) => {
            match tomb_kind(&md) {
                Some(TombKind::Evict) => {},
                _ => {
                    return RehydrateStep::Stop;
                },
            }
            match md.get(CETAG) {
                Some(now) => {
                    if !same_text(now.as_str(), cetag) {
                        return RehydrateStep::Stop;
                    }
                },
                None => {
                    return RehydrateStep::Stop;
                },
            }
            if is_composite_etag(cetag) {
                RehydrateStep::CheckShadow
            } else {
                RehydrateStep::LandSingle(passthrough_metadata(&md))
            }
        },
    }
}

/// What a look at the shadow settles.
pub fn after_shadow_check(current: bool) -> (step: RehydrateStep)
    ensures
        current ==> step is Stop,
        !current ==> step is LandShadow,
{
    if current {
        RehydrateStep::Stop
    } else {
        RehydrateStep::LandShadow
    }
}

/// How a transfer ended.
pub enum Landed {
    Cancelled,
    Done,
    Failed(Error),
}

/// What follows the transfer of a single-part body: where it landed, the twin has to go, cancelled
/// or not.
pub fn after_single(landed: Landed) -> (step: RehydrateStep)
    ensures
        match landed {
            Landed::Cancelled => step is Stop,
            Landed::Done => step is DeleteTwins,
            Landed::Failed(e) => step == RehydrateStep::Fail(e),
        },
{
    match landed {
        Landed::Cancelled => RehydrateStep::Stop,
        Landed::Done => RehydrateStep::DeleteTwins,
        Landed::Failed(e) => RehydrateStep::Fail(e),
    }
}

/// What follows the transfer of a composite: the key stays a tombstone, so nothing.
pub fn after_shadow(landed: Landed) -> (step: RehydrateStep)
    ensures
        match landed {
            Landed::Failed(e) => step == RehydrateStep::Fail(e),
            _ => step is Stop,
        },
{
    match landed {
        Landed::Failed(e) => RehydrateStep::Fail(e),
        _ => RehydrateStep::Stop,
    }
}

// ---- laws -------------------------------------------------------------------------------------

/// Two generations are never mistaken for each other: a tombstone is that of one ETag at most.
pub proof fn a_tombstone_has_one_generation(
    md: Map<Seq<char>, Seq<char>>,
    a: Seq<char>,
    b: Seq<char>,
)
    requires
        is_generation(md, a),
        is_generation(md, b),
    ensures
        a == b,
{
}

/// A transition is registered under its bucket and its key alone.
pub proof fn a_transition_is_registered_under_its_key(
    bucket: String,
    key: String,
    cetag: String,
    plen: u64,
)
    ensures
        registered(Transition::Rehydrate { bucket, key, cetag, plen }) == qualified_name(
            bucket@,
            key@,
        ),
{
}

/// A tombstone is of a generation exactly where it is one of an eviction and names the generation's
/// ETag.
pub proof fn a_generation_is_an_evicted_body(md: Map<Seq<char>, Seq<char>>, cetag: Seq<char>)
    ensures
        is_generation(md, cetag) <==> tomb_named(md) == Some(TombKind::Evict) && md.contains_key(
            CETAG@,
        ) && md[CETAG@] == cetag,
{
}

/// A name is among the first transitions of a queue exactly where one of them is registered under it.
pub proof fn a_queued_name_is_that_of_a_transition(queue: Seq<Transition>, n: int, i: int)
    requires
        0 <= i < n <= queue.len(),
    ensures
        among(queue, n, registered(queue[i])),
        forall|name: Seq<char>| #[trigger]
            among(queue, n, name) ==> among(queue, n - 1, name) || registered(queue[n - 1]) == name,
        forall|name: Seq<char>| !#[trigger] among(queue, 0, name),
{
    assert forall|name: Seq<char>| #[trigger] among(queue, n, name) implies among(
        queue,
        n - 1,
        name,
    ) || registered(queue[n - 1]) == name by {
        let k = choose|k: int| 0 <= k < n && registered(#[trigger] queue[k]) == name;
        if k < n - 1 {
            assert(registered(queue[k]) == name);
        }
    }
}

} // verus!
