//! Reclaims the shadow bodies that later writes left unreachable.
//!
//! A cached write does not know whether it superseded a composite, so each of them queues its key.
//! The shadow bodies are listed after the batch was received: what the listing shows is older than the
//! write, and what comes later belongs to a newer generation.

use crate::backend::{etag_of_listed, text_or};
use crate::error::{Error, ErrorView};
use crate::gc::debris::KeyLookup;
use crate::markers::{drained, AfterBatch, DrainVerdict};
use crate::meta::admission::admissible;
use crate::meta::keyspace::{
    decode_shadow_client_key, shadow_key, shadow_of, unquoted, SHADOW_CLIENT_KEY,
};
use crate::meta::metadata::Metadata;
use crate::meta::sentinel::{tomb_kind, tomb_named, TombKind};
use crate::meta::user::CETAG;
use crate::names::NameMap;
use crate::pairs::PairMap;
use crate::text::same_text;
use vstd::prelude::*;
use vstd::utf8::encode_utf8;

verus! {

/// How many messages are taken from the queue at a time.
pub const DRAIN_BATCH: usize = 256;

/// How many pages of a bucket's shadow bodies are read at once.  What is past them waits for the next
/// listing.
pub const RANGE_PAGES: usize = 16;

// ---- the queue --------------------------------------------------------------------------------

/// A key whose shadow body a write may have left unreachable.
#[derive(Clone, Debug, PartialEq, Eq)]
pub struct Superseded {
    pub bucket: String,
    pub key: String,
}

pub enum OrphanMsg {
    Owed(Superseded),
    /// The run ends gracefully: nothing is queued behind this.
    Seal,
}

/// What becomes of a key that a write hands over.
#[derive(Clone, Copy, Debug, PartialEq, Eq, Structural)]
pub enum Handover {
    /// Nothing is ever read back in this mode.
    Nothing,
    Queue,
    /// The queue is closed under a live write: the bucket is not accounted for any more.
    Unaccount,
}

/// Hands over a key whose shadow body a write may have left unreachable.
pub fn hand_over(cached: bool, queue_open: bool) -> (what: Handover)
    ensures
        what == if !cached {
            Handover::Nothing
        } else if queue_open {
            Handover::Queue
        } else {
            Handover::Unaccount
        },
{
    if !cached {
        Handover::Nothing
    } else if queue_open {
        Handover::Queue
    } else {
        Handover::Unaccount
    }
}

/// What is owed after some messages: a key is owed once.
pub open spec fn owed_after(
    owed: Map<(Seq<char>, Seq<char>), Superseded>,
    messages: Seq<OrphanMsg>,
) -> Map<(Seq<char>, Seq<char>), Superseded>
    decreases messages.len(),
{
    if messages.len() == 0 {
        owed
    } else {
        let before = owed_after(owed, messages.drop_last());
        match messages.last() {
            OrphanMsg::Owed(s) => before.insert((s.bucket@, s.key@), s),
            OrphanMsg::Seal => before,
        }
    }
}

/// Whether some messages hold a seal.
pub open spec fn seals(messages: Seq<OrphanMsg>) -> bool {
    exists|i: int| 0 <= i < messages.len() && #[trigger] messages[i] is Seal
}

/// The end of the queue that reclaims shadow bodies.
pub struct OrphanActor {
    owed: PairMap<Superseded>,
    sealed: bool,
}

impl OrphanActor {
    pub closed spec fn owed(&self) -> Map<(Seq<char>, Seq<char>), Superseded> {
        self.owed@
    }

    pub closed spec fn sealed(&self) -> bool {
        self.sealed
    }

    /// Each key is owed under its own name.
    pub closed spec fn wf(&self) -> bool {
        &&& self.owed.wf()
        &&& forall|n: (Seq<char>, Seq<char>)| #[trigger]
            self.owed@.contains_key(n) ==> n == (self.owed@[n].bucket@, self.owed@[n].key@)
    }

    pub fn new() -> (actor: Self)
        ensures
            actor.wf(),
            actor.owed() == Map::<(Seq<char>, Seq<char>), Superseded>::empty(),
            !actor.sealed(),
    {
        OrphanActor { owed: PairMap::new(), sealed: false }
    }

    /// Owes a key.
    pub fn owe(&mut self, superseded: Superseded)
        requires
            old(self).wf(),
        ensures
            final(self).wf(),
            final(self).owed() == old(self).owed().insert(
                (superseded.bucket@, superseded.key@),
                superseded,
            ),
            final(self).sealed() == old(self).sealed(),
    {
        self.owed.insert(superseded.bucket.clone(), superseded.key.clone(), superseded);
    }

    /// Takes in what the queue held.  An empty batch means that it was closed.
    pub fn receive(&mut self, batch: Vec<OrphanMsg>) -> (after: AfterBatch)
        requires
            old(self).wf(),
        ensures
            final(self).wf(),
            final(self).owed() == owed_after(old(self).owed(), batch@),
            final(self).sealed() == (old(self).sealed() || seals(batch@)),
            after == if batch@.len() == 0 || final(self).sealed() {
                AfterBatch::Drain
            } else {
                AfterBatch::Continue
            },
    {
        let count: usize = batch.len();
        let ghost first = self.owed();
        let ghost was = self.sealed;
        let ghost all = batch@;
        let mut rest: Vec<OrphanMsg> = batch;
        let mut taken: usize = 0;
        assert(all.take(0) =~= Seq::empty());
        assert(all.skip(0) =~= all);
        while taken < count
            invariant
                taken <= count == all.len(),
                rest@ == all.skip(taken as int),
                self.wf(),
                self.owed() == owed_after(first, all.take(taken as int)),
                self.sealed == (was || seals(all.take(taken as int))),
            decreases count - taken,
        {
            let ghost done = all.take(taken as int);
            let message: OrphanMsg = rest.remove(0);
            proof {
                let upto = all.take(taken + 1);
                assert(message == all[taken as int]);
                assert(upto.drop_last() =~= done);
                assert(upto.last() == message);
                assert(rest@ =~= all.skip(taken + 1));
                lemma_seals_push(done, message);
                assert(upto =~= done.push(message));
            }
            match message {
                OrphanMsg::Owed(s) => {
                    self.owe(s);
                },
                OrphanMsg::Seal => {
                    self.sealed = true;
                },
            }
            taken += 1;
        }
        assert(all.take(taken as int) =~= all);
        if count == 0 || self.sealed {
            AfterBatch::Drain
        } else {
            AfterBatch::Continue
        }
    }

    /// Whether anything is owed that a retry could settle.
    pub fn wants_retry(&self) -> (wants: bool)
        requires
            self.wf(),
        ensures
            wants == (self.owed() != Map::<(Seq<char>, Seq<char>), Superseded>::empty()),
    {
        self.owed.len() != 0
    }

    /// Takes all that is owed, bucket by bucket: one listing serves all of a bucket's.
    pub fn resolve_all(&mut self) -> (groups: NameMap<Vec<Superseded>>)
        requires
            old(self).wf(),
        ensures
            final(self).wf(),
            final(self).owed() == Map::<(Seq<char>, Seq<char>), Superseded>::empty(),
            final(self).sealed() == old(self).sealed(),
            groups.wf(),
            forall|b: Seq<char>, s: Superseded| #[trigger]
                in_group(groups@, b, s) <==> (old(self).owed().contains_value(s) && s.bucket@ == b),
            forall|b: Seq<char>| #[trigger]
                groups@.contains_key(b) ==> groups@[b]@.len() > 0 && groups@[b]@.no_duplicates(),
    {
        let mut owed: PairMap<Superseded> = PairMap::new();
        std::mem::swap(&mut self.owed, &mut owed);
        proof {
            owed.lemma_places();
        }
        let ghost map = owed@;
        let ghost pairs = owed.pairs();
        let values: Vec<Superseded> = owed.into_values();
        proof {
            assert forall|i: int, j: int|
                0 <= i < values@.len() && 0 <= j < values@.len() && i != j implies values@[i]
                != values@[j] by {
                assert(map.contains_key(pairs[i]) && map.contains_key(pairs[j]));
            }
        }
        let groups: NameMap<Vec<Superseded>> = group_by_bucket(values);
        proof {
            assert forall|s: Superseded| #[trigger] values@.contains(s) <==> map.contains_value(
                s,
            ) by {
                if map.contains_value(s) {
                    let n = choose|n: (Seq<char>, Seq<char>)| map.contains_key(n) && map[n] == s;
                    let i = choose|i: int| 0 <= i < pairs.len() && pairs[i] == n;
                    assert(values@[i] == s);
                }
                if values@.contains(s) {
                    let i = choose|i: int| 0 <= i < values@.len() && values@[i] == s;
                    assert(map.contains_key(pairs[i]));
                }
            }
            assert forall|b: Seq<char>, s: Superseded| #[trigger] in_group(groups@, b, s) <==> (
            map.contains_value(s) && s.bucket@ == b) by {
                assert(values@.contains(s) <==> map.contains_value(s));
            }
        }
        groups
    }

    /// The end of the run.
    pub fn verdict(&self, cached: bool) -> (verdict: DrainVerdict)
        requires
            self.wf(),
        ensures
            verdict == drained(
                self.sealed(),
                self.owed() == Map::<(Seq<char>, Seq<char>), Superseded>::empty(),
                cached,
            ),
    {
        if !self.sealed {
            DrainVerdict::NotSealed
        } else if self.owed.len() != 0 {
            DrainVerdict::StillOwed
        } else if cached {
            DrainVerdict::MarkClean
        } else {
            DrainVerdict::NothingToVouchFor
        }
    }
}

proof fn lemma_seals_push(done: Seq<OrphanMsg>, message: OrphanMsg)
    ensures
        seals(done.push(message)) == (seals(done) || message is Seal),
{
    let upto = done.push(message);
    if seals(upto) {
        let i = choose|i: int| 0 <= i < upto.len() && #[trigger] upto[i] is Seal;
        if i < done.len() {
            assert(done[i] is Seal);
        }
    }
    if seals(done) {
        let i = choose|i: int| 0 <= i < done.len() && #[trigger] done[i] is Seal;
        assert(upto[i] is Seal);
    }
    if message is Seal {
        assert(upto[done.len() as int] is Seal);
    }
}

/// Whether an obligation stands in the group of a bucket.
pub open spec fn in_group(
    groups: Map<Seq<char>, Vec<Superseded>>,
    bucket: Seq<char>,
    s: Superseded,
) -> bool {
    groups.contains_key(bucket) && groups[bucket]@.contains(s)
}

/// Parts some obligations by their buckets.
fn group_by_bucket(owed: Vec<Superseded>) -> (groups: NameMap<Vec<Superseded>>)
    requires
        owed@.no_duplicates(),
    ensures
        groups.wf(),
        forall|b: Seq<char>, s: Superseded| #[trigger]
            in_group(groups@, b, s) <==> (owed@.contains(s) && s.bucket@ == b),
        forall|b: Seq<char>| #[trigger]
            groups@.contains_key(b) ==> groups@[b]@.len() > 0 && groups@[b]@.no_duplicates(),
{
    let mut groups: NameMap<Vec<Superseded>> = NameMap::new();
    let ghost all = owed@;
    let mut rest: Vec<Superseded> = owed;
    let ghost mut done: Seq<Superseded> = Seq::empty();
    assert(done + rest@ =~= all);
    while rest.len() > 0
        invariant
            done + rest@ == all,
            all.no_duplicates(),
            groups.wf(),
            forall|b: Seq<char>, s: Superseded| #[trigger]
                in_group(groups@, b, s) <==> (done.contains(s) && s.bucket@ == b),
            forall|b: Seq<char>| #[trigger]
                groups@.contains_key(b) ==> groups@[b]@.len() > 0 && groups@[b]@.no_duplicates(),
        decreases rest@.len(),
    {
        let ghost before = groups@;
        let ghost earlier = done;
        let one: Superseded = rest.remove(0);
        let ghost o = one;
        proof {
            done = done.push(o);
            assert(done + rest@ =~= all);
        }
        let bucket: String = one.bucket.clone();
        let ghost b0 = bucket@;
        let mut group: Vec<Superseded> = match groups.remove(bucket.as_str()) {
            Some(group) => group,
            None => Vec::new(),
        };
        let ghost old_group = group@;
        group.push(one);
        let ghost new_group = group@;
        groups.insert(bucket, group);
        proof {
            assert(before.contains_key(b0) ==> old_group == before[b0]@);
            assert(!before.contains_key(b0) ==> old_group == Seq::<Superseded>::empty());
            assert(new_group == old_group.push(o));
            assert(!old_group.contains(o)) by {
                assert(in_group(before, b0, o) <==> (earlier.contains(o) && o.bucket@ == b0));
                let at = earlier.len() as int;
                assert(all[at] == o);
                if earlier.contains(o) {
                    let i = choose|i: int| 0 <= i < earlier.len() && earlier[i] == o;
                    assert(all[i] == o);
                }
            }
            assert forall|s: Superseded| done.contains(s) <==> (earlier.contains(s) || s == o) by {
                lemma_contains_push(earlier, o, s);
            }
            assert forall|s: Superseded| new_group.contains(s) <==> (old_group.contains(s) || s
                == o) by {
                lemma_contains_push(old_group, o, s);
            }
            assert forall|b: Seq<char>, s: Superseded| #[trigger] in_group(groups@, b, s) <==> (
            done.contains(s) && s.bucket@ == b) by {
                assert(in_group(before, b, s) <==> (earlier.contains(s) && s.bucket@ == b));
                if b == b0 {
                    assert(groups@[b]@ == new_group);
                    assert(in_group(before, b, s) <==> old_group.contains(s));
                }
            }
        }
    }
    assert(done =~= all);
    groups
}

proof fn lemma_contains_push(s: Seq<Superseded>, x: Superseded, y: Superseded)
    ensures
        s.push(x).contains(y) <==> (s.contains(y) || y == x),
{
    let t = s.push(x);
    if s.contains(y) {
        let i = choose|i: int| 0 <= i < s.len() && s[i] == y;
        assert(t[i] == y);
    }
    if y == x {
        assert(t[s.len() as int] == y);
    }
    if t.contains(y) {
        let i = choose|i: int| 0 <= i < t.len() && t[i] == y;
        if i < s.len() {
            assert(s[i] == y);
        }
    }
}

// ---- one bucket -------------------------------------------------------------------------------

/// Whether a bucket's shadow bodies are listed at all: obligations of a bucket that is gone are
/// dropped, since its meta range went with it.
pub fn should_list(bucket_absent: bool) -> (list: bool)
    ensures
        list == !bucket_absent,
{
    !bucket_absent
}

/// What becomes of a bucket's obligations once its shadow bodies were listed.
#[derive(Clone, Copy, Debug, PartialEq, Eq, Structural)]
pub enum ListingFate {
    Judge,
    /// The bucket is gone.  To owe them for ever would withhold the evidence of every bucket.
    Dropped,
    /// Nothing can be judged, so all of them stay owed.
    Retained,
}

pub fn judge_listing(failure: Option<&Error>) -> (fate: ListingFate)
    ensures
        fate == match failure {
            None => ListingFate::Judge,
            Some(e) => if e@ == ErrorView::NoSuchBucket {
                ListingFate::Dropped
            } else {
                ListingFate::Retained
            },
        },
{
    match failure {
        None => ListingFate::Judge,
        Some(Error::NoSuchBucket) => ListingFate::Dropped,
        Some(_) => ListingFate::Retained,
    }
}

/// Whether another page of shadow bodies is read.
pub fn reads_on(pages_read: usize, more: bool) -> (on: bool)
    ensures
        on == (more && pages_read < RANGE_PAGES),
{
    more && pages_read < RANGE_PAGES
}

/// Whether a text is among some names.
pub open spec fn is_listed(names: Seq<String>, name: Seq<char>) -> bool {
    exists|i: int| 0 <= i < names.len() && #[trigger] names[i]@ == name
}

/// Whether a key has a shadow body among those that were listed.  A key without one, which is nearly
/// every key, has left nothing behind.
pub fn has_shadow(superseded: &Superseded, shadows: &Vec<String>) -> (shadow: Option<String>)
    ensures
        match shadow {
            Some(name) => name@ == shadow_of(superseded.key@) && is_listed(shadows@, name@),
            None => !is_listed(shadows@, shadow_of(superseded.key@)),
        },
{
    let name: String = shadow_key(superseded.key.as_str());
    let mut i: usize = 0;
    while i < shadows.len()
        invariant
            i <= shadows@.len(),
            name@ == shadow_of(superseded.key@),
            forall|j: int| 0 <= j < i ==> #[trigger] shadows@[j]@ != name@,
        decreases shadows@.len() - i,
    {
        if same_text(shadows[i].as_str(), name.as_str()) {
            return Some(name);
        }
        i += 1;
    }
    None
}

// ---- one shadow body --------------------------------------------------------------------------

/// What the lookup of a shadow body found.
pub enum ShadowLookup {
    Found { etag: Option<String>, metadata: Metadata },
    Failed(Error),
}

/// What is done about a shadow body.
#[derive(Debug)]
pub enum ShadowStep {
    /// It stays, or is gone already.
    Leave,
    /// Look at the key: the shadow body is of this generation.
    LookAtKey { key: String, cetag: String, etag: String },
    Fail(Error),
}

/// Looks at the shadow body of a key that a write superseded.  One without a generation was not
/// written here.
pub fn reclaim(superseded: &Superseded, lookup: &ShadowLookup) -> (step: ShadowStep)
    requires
        lookup matches ShadowLookup::Found { metadata, .. } ==> metadata.wf(),
    ensures
        match *lookup {
            ShadowLookup::Failed(e) => if e@ == ErrorView::NotFound || e@
                == ErrorView::NoSuchBucket {
                step is Leave
            } else {
                step matches ShadowStep::Fail(f) && f@ == e@
            },
            ShadowLookup::Found { etag, metadata } => if metadata@.contains_key(CETAG@) {
                step matches ShadowStep::LookAtKey { key, cetag, etag: bare } && key@
                    == superseded.key@ && cetag@ == metadata@[CETAG@] && bare@ == unquoted(
                    text_or(etag, Seq::empty()),
                )
            } else {
                step is Leave
            },
        },
{
    match lookup {
        ShadowLookup::Failed(e) => if e.is_absence() {
            ShadowStep::Leave
        } else {
            ShadowStep::Fail(e.duplicate())
        },
        ShadowLookup::Found { etag, metadata } => match metadata.get(CETAG) {
            Some(cetag) => ShadowStep::LookAtKey {
                key: superseded.key.clone(),
                cetag: cetag.clone(),
                etag: etag_of_listed(etag),
            },
            None => ShadowStep::Leave,
        },
    }
}

/// The key that a shadow body's metadata records, where it can be read.
pub open spec fn records_key(md: Map<Seq<char>, Seq<char>>, key: Seq<char>) -> bool {
    &&& md.contains_key(SHADOW_CLIENT_KEY@)
    &&& admissible(key)
    &&& md[SHADOW_CLIENT_KEY@] == crate::codes::b64url(encode_utf8(key))
}

/// Looks at a shadow body that no obligation led to.  Without a generation, or without a key that can
/// be read, there is nothing to judge it by, and it stays.
pub fn sweep(lookup: &ShadowLookup) -> (step: ShadowStep)
    requires
        lookup matches ShadowLookup::Found { metadata, .. } ==> metadata.wf(),
    ensures
        match *lookup {
            ShadowLookup::Failed(e) => if e@ == ErrorView::NotFound {
                step is Leave
            } else {
                step matches ShadowStep::Fail(f) && f@ == e@
            },
            ShadowLookup::Found { etag, metadata } => match step {
                ShadowStep::LookAtKey { key, cetag, etag: bare } => {
                    &&& metadata@.contains_key(CETAG@)
                    &&& cetag@ == metadata@[CETAG@]
                    &&& records_key(metadata@, key@)
                    &&& bare@ == unquoted(text_or(etag, Seq::empty()))
                },
                ShadowStep::Leave => !metadata@.contains_key(CETAG@) || forall|key: Seq<char>|
                    !#[trigger] records_key(metadata@, key),
                ShadowStep::Fail(_) => false,
            },
        },
{
    match lookup {
        ShadowLookup::Failed(e) => match e {
            Error::NotFound => ShadowStep::Leave,
            other => ShadowStep::Fail(other.duplicate()),
        },
        ShadowLookup::Found { etag, metadata } => {
            let cetag: &String = match metadata.get(CETAG) {
                Some(cetag) => cetag,
                None => {
                    return ShadowStep::Leave;
                },
            };
            let encoded: &String = match metadata.get(SHADOW_CLIENT_KEY) {
                Some(encoded) => encoded,
                None => {
                    return ShadowStep::Leave;
                },
            };
            match decode_shadow_client_key(encoded.as_str()) {
                Some(key) => ShadowStep::LookAtKey {
                    key,
                    cetag: cetag.clone(),
                    etag: etag_of_listed(etag),
                },
                None => {
                    assert forall|key: Seq<char>| !#[trigger] records_key(metadata@, key) by {
                        if records_key(metadata@, key) {
                            assert(encoded@ != crate::codes::b64url(encode_utf8(key)));
                        }
                    }
                    ShadowStep::Leave
                },
            }
        },
    }
}

/// Whether a key with some metadata names a generation as its current one.  A key in transition may
/// yet come to name it.
pub open spec fn names_generation(md: Map<Seq<char>, Seq<char>>, cetag: Seq<char>) -> bool {
    match tomb_named(md) {
        Some(TombKind::Evict) => md.contains_key(CETAG@) && md[CETAG@] == cetag,
        Some(TombKind::Transit) => true,
        None => false,
    }
}

/// Whether a shadow body of a generation can still be reached from its key.
pub fn still_reachable(lookup: &KeyLookup, cetag: &str) -> (reachable: Result<bool, Error>)
    requires
        lookup matches KeyLookup::Found(md) ==> md.wf(),
    ensures
        match *lookup {
            KeyLookup::Found(md) => reachable matches Ok(r) && r == names_generation(md@, cetag@),
            KeyLookup::Failed(e) => match reachable {
                Ok(r) => !r && (e@ == ErrorView::NotFound || e@ == ErrorView::NoSuchBucket),
                Err(f) => f@ == e@ && e@ != ErrorView::NotFound && e@ != ErrorView::NoSuchBucket,
            },
        },
{
    match lookup {
        KeyLookup::Failed(e) => if e.is_absence() {
            Ok(false)
        } else {
            Err(e.duplicate())
        },
        KeyLookup::Found(md) => match tomb_kind(md) {
            Some(TombKind::Evict) => match md.get(CETAG) {
                Some(now) => Ok(same_text(now.as_str(), cetag)),
                None => Ok(false),
            },
            Some(TombKind::Transit) => Ok(true),
            None => Ok(false),
        },
    }
}

/// Judges the deletion of a shadow body, which is bound to the version that was seen: a newer one
/// stays.
pub fn drop_shadow(deleted: Result<(), Error>) -> (settled: Result<(), Error>)
    ensures
        match deleted {
            Ok(_) => settled is Ok,
            Err(e) => if e@ == ErrorView::PreconditionFailed || e@ == ErrorView::NotFound {
                settled is Ok
            } else {
                settled matches Err(f) && f@ == e@
            },
        },
{
    match deleted {
        Ok(_) => Ok(()),
        Err(Error::PreconditionFailed) => Ok(()),
        Err(Error::NotFound) => Ok(()),
        Err(e) => Err(e),
    }
}

// ---- laws -------------------------------------------------------------------------------------

/// Only a seal earns the evidence: a run whose queue was closed without one vouches for no bucket's
/// shadow bodies, and one that was sealed does so only with nothing left owed.
pub proof fn a_closed_queue_proves_nothing(
    messages: Seq<OrphanMsg>,
    left: Map<(Seq<char>, Seq<char>), Superseded>,
    cached: bool,
)
    ensures
        !seals(messages) ==> drained(seals(messages), left == Map::<(Seq<char>, Seq<char>), Superseded>::empty(), cached)
            == DrainVerdict::NotSealed,
        drained(seals(messages), left == Map::<(Seq<char>, Seq<char>), Superseded>::empty(), cached)
            == DrainVerdict::MarkClean ==> seals(messages) && left == Map::<(Seq<char>, Seq<char>), Superseded>::empty(),
{
}

/// Every key that was handed over is owed, as itself, until it is taken.
pub proof fn no_obligation_is_lost(
    owed: Map<(Seq<char>, Seq<char>), Superseded>,
    messages: Seq<OrphanMsg>,
    i: int,
)
    requires
        0 <= i < messages.len(),
        messages[i] is Owed,
    ensures
        ({
            let s = messages[i]->Owed_0;
            let left = owed_after(owed, messages);
            &&& left.contains_key((s.bucket@, s.key@))
            &&& left[(s.bucket@, s.key@)].bucket@ == s.bucket@
            &&& left[(s.bucket@, s.key@)].key@ == s.key@
        }),
    decreases messages.len(),
{
    if i < messages.len() - 1 {
        assert(messages.drop_last()[i] == messages[i]);
        no_obligation_is_lost(owed, messages.drop_last(), i);
    }
}

/// A shadow body stays reachable as long as its key is a tombstone of its generation or is in
/// transition, and is not otherwise.
pub proof fn only_its_generation_keeps_a_shadow(md: Map<Seq<char>, Seq<char>>, cetag: Seq<char>)
    ensures
        names_generation(md, cetag) <==> tomb_named(md) == Some(TombKind::Transit) || (tomb_named(
            md,
        ) == Some(TombKind::Evict) && md.contains_key(CETAG@) && md[CETAG@] == cetag),
{
}

/// The queue is read message by message: an obligation is owed under its bucket and its key, beside the
/// others, and a seal owes nothing.
pub proof fn messages_are_taken_in_their_order(
    owed: Map<(Seq<char>, Seq<char>), Superseded>,
    a: Seq<OrphanMsg>,
    b: Seq<OrphanMsg>,
    one: OrphanMsg,
)
    ensures
        owed_after(owed, a + b) == owed_after(owed_after(owed, a), b),
        owed_after(owed, Seq::<OrphanMsg>::empty()) == owed,
        one is Owed ==> owed_after(owed, seq![one]) == owed.insert(
            (one->Owed_0.bucket@, one->Owed_0.key@),
            one->Owed_0,
        ),
        one is Seal ==> owed_after(owed, seq![one]) == owed,
        seals(a + b) == (seals(a) || seals(b)),
        seals(seq![one]) == (one is Seal),
    decreases b.len(),
{
    assert(seq![one].drop_last() =~= Seq::<OrphanMsg>::empty());
    assert(seq![one].last() == one);
    reveal_with_fuel(owed_after, 2);
    assert(seq![one][0] == one);
    if seals(a) {
        let i = choose|i: int| 0 <= i < a.len() && #[trigger] a[i] is Seal;
        assert((a + b)[i] is Seal);
    }
    if seals(b) {
        let i = choose|i: int| 0 <= i < b.len() && #[trigger] b[i] is Seal;
        assert((a + b)[a.len() + i] is Seal);
    }
    if b.len() == 0 {
        assert(a + b =~= a);
    } else {
        messages_are_taken_in_their_order(owed, a, b.drop_last(), one);
        assert((a + b).drop_last() =~= a + b.drop_last());
        assert((a + b).last() == b.last());
    }
}

/// A shadow is its key's where it carries the key's name, and two keys never share one.
pub proof fn a_shadow_records_its_key(md: Map<Seq<char>, Seq<char>>, key: Seq<char>)
    ensures
        records_key(md, key) <==> md.contains_key(SHADOW_CLIENT_KEY@) && admissible(key)
            && md[SHADOW_CLIENT_KEY@] == crate::codes::b64url(encode_utf8(key)),
{
}

/// A shadow is listed exactly where one of the names is its own, and an obligation is in the group of
/// its own bucket exactly where the group holds it.
pub proof fn a_listed_shadow_is_one_of_the_names(
    names: Seq<String>,
    name: Seq<char>,
    i: int,
    groups: Map<Seq<char>, Vec<Superseded>>,
    bucket: Seq<char>,
    s: Superseded,
)
    ensures
        0 <= i < names.len() ==> is_listed(names, names[i]@),
        is_listed(names, name) ==> exists|j: int| 0 <= j < names.len() && #[trigger] names[j]@ == name,
        in_group(groups, bucket, s) <==> groups.contains_key(bucket) && groups[bucket]@.contains(s),
{
}

} // verus!
