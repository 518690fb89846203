//! Every bucket that this process serves.
//!
//! An entry is born once its bucket exists on the remote and is retired once it does not, so the map,
//! and not a backend, says which buckets there are.

use crate::names::NameMap;
use vstd::prelude::*;

verus! {

/// What is remembered of a bucket.
#[derive(Clone, Copy, Debug, PartialEq, Eq, Structural)]
pub enum Memo {
    /// Both cache projections exist, so a write need not ask for them.
    Provisioned,
    /// This run accounts for the bucket's pending set.
    Accounted,
    /// This run accounts for the bucket's shadow bodies.
    ShadowsAccounted,
}

#[derive(Clone, Copy, Debug, PartialEq, Eq, Structural)]
pub struct Memos {
    pub provisioned: bool,
    pub accounted: bool,
    pub shadows_accounted: bool,
}

/// Nothing is remembered that there is no evidence for.
pub open spec fn no_memos() -> Memos {
    Memos { provisioned: false, accounted: false, shadows_accounted: false }
}

/// Whether something is remembered.
pub open spec fn recalls(m: Memos, memo: Memo) -> bool {
    match memo {
        Memo::Provisioned => m.provisioned,
        Memo::Accounted => m.accounted,
        Memo::ShadowsAccounted => m.shadows_accounted,
    }
}

/// What is remembered once one thing is, or is not any more.
pub open spec fn with_memo(m: Memos, memo: Memo, value: bool) -> Memos {
    match memo {
        Memo::Provisioned => Memos { provisioned: value, ..m },
        Memo::Accounted => Memos { accounted: value, ..m },
        Memo::ShadowsAccounted => Memos { shadows_accounted: value, ..m },
    }
}

/// A bucket: the way to its gate, and what is remembered of it.
#[derive(Debug)]
pub struct BucketState<G> {
    pub gate: G,
    pub memos: Memos,
}

/// The buckets of this process.  A gate is shared with the operations that it counts, so the map
/// holds the way to it.
pub struct BucketStates<G> {
    entries: NameMap<BucketState<G>>,
}

impl<G> View for BucketStates<G> {
    type V = Map<Seq<char>, BucketState<G>>;

    closed spec fn view(&self) -> Map<Seq<char>, BucketState<G>> {
        self.entries@
    }
}

impl<G> BucketStates<G> {
    pub closed spec fn wf(&self) -> bool {
        self.entries.wf()
    }

    pub fn new() -> (states: Self)
        ensures
            states.wf(),
            states@ == Map::<Seq<char>, BucketState<G>>::empty(),
    {
        BucketStates { entries: NameMap::new() }
    }

    /// Publishes a bucket.  One that is published already keeps its gate, in which its operations
    /// are counted, and what is remembered of it.
    pub fn birth(&mut self, bucket: String, gate: G)
        requires
            old(self).wf(),
        ensures
            final(self).wf(),
            final(self)@ == if old(self)@.contains_key(bucket@) {
                old(self)@
            } else {
                old(self)@.insert(bucket@, (BucketState { gate, memos: no_memos() }))
            },
    {
        if !self.entries.contains_key(bucket.as_str()) {
            let memos = Memos { provisioned: false, accounted: false, shadows_accounted: false };
            self.entries.insert(bucket, BucketState { gate, memos });
        }
    }

    /// Forgets a bucket that is gone, so that nothing vouches for it.
    pub fn retire(&mut self, bucket: &str)
        requires
            old(self).wf(),
        ensures
            final(self).wf(),
            final(self)@ == old(self)@.remove(bucket@),
    {
        let _gone: Option<BucketState<G>> = self.entries.remove(bucket);
    }

    /// The way to a bucket's gate; a bucket without one is absent.
    pub fn gate(&self, bucket: &str) -> (gate: Option<&G>)
        requires
            self.wf(),
        ensures
            match gate {
                Some(g) => self@.contains_key(bucket@) && *g == self@[bucket@].gate,
                None => !self@.contains_key(bucket@),
            },
    {
        match self.entries.get(bucket) {
            Some(state) => Some(&state.gate),
            None => None,
        }
    }

    /// Whether something is remembered of a bucket.
    pub fn holds(&self, bucket: &str, memo: Memo) -> (held: bool)
        requires
            self.wf(),
        ensures
            held == (self@.contains_key(bucket@) && recalls(self@[bucket@].memos, memo)),
    {
        match self.entries.get(bucket) {
            Some(state) => recalled(state.memos, memo),
            None => false,
        }
    }

    /// Remembers something of a bucket, or forgets it.  A bucket that is not published stays so.
    pub fn update(&mut self, bucket: &str, memo: Memo, value: bool)
        requires
            old(self).wf(),
        ensures
            final(self).wf(),
            final(self)@ == if old(self)@.contains_key(bucket@) {
                old(self)@.insert(
                    bucket@,
                    (BucketState {
                        gate: old(self)@[bucket@].gate,
                        memos: with_memo(old(self)@[bucket@].memos, memo, value),
                    }),
                )
            } else {
                old(self)@
            },
    {
        match self.entries.remove(bucket) {
            Some(state) => {
                let m: Memos = state.memos;
                let memos = match memo {
                    Memo::Provisioned => Memos {
                        provisioned: value,
                        accounted: m.accounted,
                        shadows_accounted: m.shadows_accounted,
                    },
                    Memo::Accounted => Memos {
                        provisioned: m.provisioned,
                        accounted: value,
                        shadows_accounted: m.shadows_accounted,
                    },
                    Memo::ShadowsAccounted => Memos {
                        provisioned: m.provisioned,
                        accounted: m.accounted,
                        shadows_accounted: value,
                    },
                };
                self.entries.insert(bucket.to_string(), BucketState { gate: state.gate, memos });
                assert(self@ =~= old(self)@.insert(bucket@, self@[bucket@]));
            },
            None => {},
        }
    }

    /// This run accounts for a bucket's pending set.
    pub fn account_for(&mut self, bucket: &str)
        requires
            old(self).wf(),
        ensures
            final(self).wf(),
            final(self)@ == accounted_for(old(self)@, bucket@, Memo::Accounted, true),
    {
        self.update(bucket, Memo::Accounted, true);
    }

    /// This run cannot vouch for a bucket's pending set any more.
    pub fn unaccount(&mut self, bucket: &str)
        requires
            old(self).wf(),
        ensures
            final(self).wf(),
            final(self)@ == accounted_for(old(self)@, bucket@, Memo::Accounted, false),
    {
        self.update(bucket, Memo::Accounted, false);
    }

    /// This run accounts for a bucket's shadow bodies.
    pub fn account_shadows_for(&mut self, bucket: &str)
        requires
            old(self).wf(),
        ensures
            final(self).wf(),
            final(self)@ == accounted_for(old(self)@, bucket@, Memo::ShadowsAccounted, true),
    {
        self.update(bucket, Memo::ShadowsAccounted, true);
    }

    /// This run cannot vouch for a bucket's shadow bodies any more.
    pub fn unaccount_shadows(&mut self, bucket: &str)
        requires
            old(self).wf(),
        ensures
            final(self).wf(),
            final(self)@ == accounted_for(old(self)@, bucket@, Memo::ShadowsAccounted, false),
    {
        self.update(bucket, Memo::ShadowsAccounted, false);
    }

    /// Publishes a bucket that this run created: its namespace is empty, so its pending set is
    /// complete, and the cache work came before.
    pub fn created(&mut self, bucket: String, gate: G)
        requires
            old(self).wf(),
        ensures
            final(self).wf(),
            final(self)@.dom() == old(self)@.dom().insert(bucket@),
            final(self)@[bucket@].gate == if old(self)@.contains_key(bucket@) {
                old(self)@[bucket@].gate
            } else {
                gate
            },
            final(self)@[bucket@].memos == with_memo(
                with_memo(
                    if old(self)@.contains_key(bucket@) {
                        old(self)@[bucket@].memos
                    } else {
                        no_memos()
                    },
                    Memo::Provisioned,
                    true,
                ),
                Memo::Accounted,
                true,
            ),
            forall|b: Seq<char>| #[trigger]
                old(self)@.contains_key(b) && b != bucket@ ==> final(self)@[b] == old(self)@[b],
    {
        let name: String = bucket.clone();
        self.birth(bucket, gate);
        self.update(name.as_str(), Memo::Provisioned, true);
        self.update(name.as_str(), Memo::Accounted, true);
        assert(self@.dom() =~= old(self)@.dom().insert(name@));
    }

    /// The buckets of which something is remembered.
    pub fn having(&self, memo: Memo) -> (buckets: Vec<String>)
        requires
            self.wf(),
        ensures
            forall|b: Seq<char>| #[trigger]
                is_listed(buckets@, b) <==> (self@.contains_key(b) && recalls(self@[b].memos, memo)),
            forall|i: int, j: int|
                0 <= i < j < buckets@.len() ==> #[trigger] buckets@[i]@ != #[trigger] buckets@[j]@,
    {
        self.listing(Some(memo))
    }

    /// All the buckets.
    pub fn buckets(&self) -> (buckets: Vec<String>)
        requires
            self.wf(),
        ensures
            forall|b: Seq<char>| #[trigger] is_listed(buckets@, b) <==> self@.contains_key(b),
            forall|i: int, j: int|
                0 <= i < j < buckets@.len() ==> #[trigger] buckets@[i]@ != #[trigger] buckets@[j]@,
    {
        self.listing(None)
    }

    fn listing(&self, memo: Option<Memo>) -> (buckets: Vec<String>)
        requires
            self.wf(),
        ensures
            forall|b: Seq<char>| #[trigger]
                is_listed(buckets@, b) <==> (self@.contains_key(b) && (memo matches Some(m)
                    ==> recalls(self@[b].memos, m))),
            forall|i: int, j: int|
                0 <= i < j < buckets@.len() ==> #[trigger] buckets@[i]@ != #[trigger] buckets@[j]@,
    {
        let mut buckets: Vec<String> = Vec::new();
        let total: usize = self.entries.len();
        let ghost names = self.entries.names();
        proof {
            self.entries.lemma_places();
        }
        let mut i: usize = 0;
        while i < total
            invariant
                i <= total == names.len(),
                names == self.entries.names(),
                self.wf(),
                names.no_duplicates(),
                forall|k: int| 0 <= k < names.len() ==> self.entries@.contains_key(#[trigger] names[k]),
                forall|b: Seq<char>| #[trigger]
                    is_listed(buckets@, b) <==> (names.take(i as int).contains(b) && (
                    memo matches Some(m) ==> recalls(self.entries@[b].memos, m))),
                forall|a: int, c: int|
                    0 <= a < c < buckets@.len() ==> #[trigger] buckets@[a]@ != #[trigger] buckets@[c]@,
            decreases total - i,
        {
            let ghost before = buckets@;
            let state: &BucketState<G> = self.entries.value_at(i);
            let name: &String = self.entries.name_at(i);
            let wanted: bool = match memo {
                Some(m) => recalled(state.memos, m),
                None => true,
            };
            proof {
                assert(names.take(i + 1) =~= names.take(i as int).push(names[i as int]));
                assert(!names.take(i as int).contains(names[i as int])) by {
                    if names.take(i as int).contains(names[i as int]) {
                        let k = choose|k: int|
                            0 <= k < i && names.take(i as int)[k] == names[i as int];
                        assert(names[k] == names[i as int]);
                    }
                }
                assert forall|b: Seq<char>| #[trigger] names.take(i + 1).contains(b) <==> (
                names.take(i as int).contains(b) || b == names[i as int]) by {
                    lemma_push_contains(names.take(i as int), names[i as int], b);
                }
            }
            if wanted {
                buckets.push(name.clone());
                proof {
                    let n = names[i as int];
                    assert(buckets@.drop_last() =~= before);
                    assert forall|b: Seq<char>| #[trigger] is_listed(buckets@, b) <==> (is_listed(
                        before,
                        b,
                    ) || b == n) by {
                        lemma_push_listed(before, buckets@, b);
                    }
                    assert(!is_listed(before, n));
                    assert forall|a: int, c: int| 0 <= a < c < buckets@.len() implies
                        #[trigger] buckets@[a]@ != #[trigger] buckets@[c]@ by {
                        if c == before.len() {
                            assert(before[a]@ != n) by {
                                if before[a]@ == n {
                                    assert(is_listed(before, n));
                                }
                            }
                        }
                    }
                }
            }
            i += 1;
        }
        proof {
            assert(names.take(i as int) =~= names);
            assert forall|b: Seq<char>| #[trigger] is_listed(buckets@, b) <==> (self@.contains_key(
                b,
            ) && (memo matches Some(m) ==> recalls(self@[b].memos, m))) by {
                assert(names.contains(b) <==> self.entries@.contains_key(b)) by {
                    if names.contains(b) {
                        let k = choose|k: int| 0 <= k < names.len() && names[k] == b;
                        assert(self.entries@.contains_key(names[k]));
                    }
                }
            }
        }
        buckets
    }
}

fn recalled(m: Memos, memo: Memo) -> (held: bool)
    ensures
        held == recalls(m, memo),
{
    match memo {
        Memo::Provisioned => m.provisioned,
        Memo::Accounted => m.accounted,
        Memo::ShadowsAccounted => m.shadows_accounted,
    }
}

/// Whether a text is among some names.
pub open spec fn is_listed(names: Seq<String>, name: Seq<char>) -> bool {
    exists|i: int| 0 <= i < names.len() && #[trigger] names[i]@ == name
}

proof fn lemma_push_contains(s: Seq<Seq<char>>, x: Seq<char>, y: Seq<char>)
    ensures
        s.push(x).contains(y) <==> (s.contains(y) || y == x),
{
    let t = s.push(x);
    if s.contains(y) {
        let i = choose|i: int| 0 <= i < s.len() && s[i] == y;
        assert(t[i] == y);
    }
    if y == x {
        assert(t[s.len() as int] == y);
    }
    if t.contains(y) {
        let i = choose|i: int| 0 <= i < t.len() && t[i] == y;
        if i < s.len() {
            assert(s[i] == y);
        }
    }
}

proof fn lemma_push_listed(before: Seq<String>, after: Seq<String>, b: Seq<char>)
    requires
        after.len() == before.len() + 1,
        after.drop_last() == before,
    ensures
        is_listed(after, b) <==> (is_listed(before, b) || after.last()@ == b),
{
    if is_listed(before, b) {
        let i = choose|i: int| 0 <= i < before.len() && #[trigger] before[i]@ == b;
        assert(after[i] == after.drop_last()[i]);
        assert(after[i]@ == b);
    }
    if after.last()@ == b {
        assert(after[before.len() as int]@ == b);
    }
    if is_listed(after, b) {
        let i = choose|i: int| 0 <= i < after.len() && #[trigger] after[i]@ == b;
        if i < before.len() {
            assert(after.drop_last()[i] == after[i]);
            assert(before[i]@ == b);
        }
    }
}

/// The buckets once something is remembered of one, or is not any more.
pub open spec fn accounted_for<G>(
    states: Map<Seq<char>, BucketState<G>>,
    bucket: Seq<char>,
    memo: Memo,
    value: bool,
) -> Map<Seq<char>, BucketState<G>> {
    if states.contains_key(bucket) {
        states.insert(
            bucket,
            (BucketState {
                gate: states[bucket].gate,
                memos: with_memo(states[bucket].memos, memo, value),
            }),
        )
    } else {
        states
    }
}

/// A memo is recalled as it was last set, and setting one leaves the others alone.
pub proof fn a_memo_is_recalled_as_it_was_set(m: Memos, memo: Memo, other: Memo, value: bool)
    ensures
        recalls(with_memo(m, memo, value), memo) == value,
        other != memo ==> recalls(with_memo(m, memo, value), other) == recalls(m, other),
        !recalls(no_memos(), memo),
        recalls(m, Memo::Provisioned) == m.provisioned,
        recalls(m, Memo::Accounted) == m.accounted,
        recalls(m, Memo::ShadowsAccounted) == m.shadows_accounted,
{
}

/// Accounting for a bucket sets the one memo of that bucket: its gate, its other memos and every other
/// bucket stay as they were, and a bucket that is not there is not made.
pub proof fn accounting_touches_one_memo_of_one_bucket<G>(
    states: Map<Seq<char>, BucketState<G>>,
    bucket: Seq<char>,
    memo: Memo,
    value: bool,
    other: Seq<char>,
    another: Memo,
)
    ensures
        ({
            let after = accounted_for(states, bucket, memo, value);
            &&& after.dom() == states.dom()
            &&& states.contains_key(bucket) ==> recalls(after[bucket].memos, memo) == value
            &&& states.contains_key(bucket) && another != memo ==> recalls(
                after[bucket].memos,
                another,
            ) == recalls(states[bucket].memos, another)
            &&& states.contains_key(bucket) ==> after[bucket].gate == states[bucket].gate
            &&& states.contains_key(other) && other != bucket ==> after[other] == states[other]
        }),
{
    assert(accounted_for(states, bucket, memo, value).dom() =~= states.dom());
}

/// A bucket is listed exactly where one of the names is its own.
pub proof fn a_listed_bucket_is_one_of_the_names(names: Seq<String>, name: Seq<char>, i: int)
    ensures
        0 <= i < names.len() ==> is_listed(names, names[i]@),
        is_listed(names, name) ==> exists|j: int| 0 <= j < names.len() && #[trigger] names[j]@ == name,
{
}

} // verus!
