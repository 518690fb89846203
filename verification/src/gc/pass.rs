//! One pass of the scavenger, and what its outcome changes.
//!
//! Debris comes first: nobody was going to read it, so a target that it meets evicts nothing at all.
//! Only then are the coldest bodies taken.

use crate::gc::age::{coldness, Age};
use crate::gc::ladder::Ladder;
use crate::gc::ring::{
    an_age_is_unique, every_name_has_an_age, has_age, holds, qualified, qualified_name, Geometry,
    RecencyRing,
};
use crate::gc::scan::{artifact_name, ArtifactView, Candidate, CandidateView};
use crate::gc::usage::Usage;
use crate::meta::keyspace::{shadow_key, shadow_of};
use crate::meta::sentinel::is_composite_etag;
use crate::text::same_text;
use vstd::prelude::*;
use vstd::seq_lib::to_multiset_insert;

verus! {

// ---- touches ----------------------------------------------------------------------------------

/// Where a key's plaintext lies in the cache.
#[derive(Clone, Copy, Debug, PartialEq, Eq, Structural)]
pub enum Plaintext {
    /// At the key itself.
    AtKey,
    /// In the key's shadow body.  The key then holds a tombstone, which is never evicted.
    InShadow,
}

impl Plaintext {
    /// Where an ETag puts the plaintext: a composite's can only be in a shadow body.
    pub fn of(cetag: &str) -> (holds: Self)
        ensures
            holds == if cetag@.contains('-') {
                Plaintext::InShadow
            } else {
                Plaintext::AtKey
            },
    {
        if is_composite_etag(cetag) {
            Plaintext::InShadow
        } else {
            Plaintext::AtKey
        }
    }
}

/// The name under which a touch of a key is recorded.
pub fn touch(bucket: &str, key: &str, holds: Plaintext) -> (name: String)
    ensures
        name@ == match holds {
            Plaintext::AtKey => qualified_name(bucket@, key@),
            Plaintext::InShadow => qualified_name(bucket@, shadow_of(key@)),
        },
{
    match holds {
        Plaintext::AtKey => qualified(bucket, key),
        Plaintext::InShadow => qualified(bucket, shadow_key(key).as_str()),
    }
}

// ---- planning ---------------------------------------------------------------------------------

/// Whether a text is among some names.
pub open spec fn is_among(names: Seq<String>, name: Seq<char>) -> bool {
    exists|i: int| 0 <= i < names.len() && #[trigger] names[i]@ == name
}

/// Those of some names that are among others, in their order.
pub open spec fn common_names(names: Seq<String>, others: Seq<String>) -> Seq<Seq<char>>
    decreases names.len(),
{
    if names.len() == 0 {
        Seq::empty()
    } else {
        let before = common_names(names.drop_last(), others);
        if is_among(others, names.last()@) {
            before.push(names.last()@)
        } else {
            before
        }
    }
}

/// Texts as sequences.
pub open spec fn bucket_views(list: Seq<String>) -> Seq<Seq<char>> {
    Seq::new(list.len(), |i: int| list[i]@)
}

fn among(names: &Vec<String>, name: &str) -> (found: bool)
    ensures
        found == is_among(names@, name@),
{
    let mut i: usize = 0;
    while i < names.len()
        invariant
            i <= names@.len(),
            forall|j: int| 0 <= j < i ==> #[trigger] names@[j]@ != name@,
        decreases names@.len() - i,
    {
        if same_text(names[i].as_str(), name) {
            return true;
        }
        i += 1;
    }
    false
}

/// The buckets of which bodies may be evicted: none without a cache, and else those that are ready
/// and whose pending set this run accounts for.
pub fn evictable(cached: bool, ready: &Vec<String>, accounted: &Vec<String>) -> (buckets: Vec<String>)
    ensures
        bucket_views(buckets@) == if cached {
            common_names(ready@, accounted@)
        } else {
            Seq::empty()
        },
{
    let mut buckets: Vec<String> = Vec::new();
    assert(bucket_views(buckets@) =~= Seq::empty());
    if !cached {
        return buckets;
    }
    let mut i: usize = 0;
    assert(ready@.take(0) =~= Seq::empty());
    while i < ready.len()
        invariant
            i <= ready@.len(),
            bucket_views(buckets@) == common_names(ready@.take(i as int), accounted@),
        decreases ready@.len() - i,
    {
        let ghost before = buckets@;
        proof {
            assert(ready@.take(i + 1).drop_last() =~= ready@.take(i as int));
            assert(ready@.take(i + 1).last() == ready@[i as int]);
        }
        if among(accounted, ready[i].as_str()) {
            buckets.push(ready[i].clone());
            assert(bucket_views(buckets@) =~= bucket_views(before).push(ready@[i as int]@));
        }
        i += 1;
    }
    assert(ready@.take(i as int) =~= ready@);
    buckets
}

/// Where a round of work that runs side by side ends; there is always at least one item in it.
pub fn round_end(at: usize, total: usize, concurrency: usize) -> (end: usize)
    requires
        at <= total,
    ensures
        end == if total - at <= concurrency || (concurrency == 0 && total - at <= 1) {
            total as int
        } else if concurrency == 0 {
            at + 1
        } else {
            at + concurrency
        },
{
    let width: usize = if concurrency == 0 {
        1
    } else {
        concurrency
    };
    if total - at <= width {
        total
    } else {
        at + width
    }
}

/// What a look at the usage says, against the marks of the configuration.
#[derive(Clone, Copy, Debug, PartialEq, Eq, Structural)]
pub struct Reading {
    pub usage: Usage,
    pub at_high_water: bool,
    pub below_low_water: bool,
    /// The bytes that have to go for the usage to reach the low mark.
    pub excess: u64,
}

/// The bytes that a pass is to give back: none below the high mark, and none where the usage is not
/// known.
pub fn byte_target(before: Option<Reading>) -> (target: u64)
    ensures
        target == match before {
            Some(r) => if r.at_high_water {
                r.excess
            } else {
                0
            },
            None => 0,
        },
{
    match before {
        Some(r) => if r.at_high_water {
            r.excess
        } else {
            0
        },
        None => 0,
    }
}

/// What follows the sweep of the debris.
#[derive(Clone, Copy, Debug, PartialEq, Eq, Structural)]
pub struct AfterSweep {
    /// Whether dead bytes are to be compacted.
    pub compact: bool,
    /// Whether to probe and evict, and how many bytes of the target are left.
    pub evict: Option<u64>,
}

/// What follows the sweep of the debris: a pass without pressure does nothing more, and one whose
/// target the debris met evicts nothing.
pub fn after_sweep(target: u64, reclaimed: u64) -> (next: AfterSweep)
    ensures
        next.compact == (target > 0),
        next.evict == if reclaimed < target {
            Some((target - reclaimed) as u64)
        } else {
            None
        },
{
    AfterSweep {
        compact: target > 0,
        evict: if reclaimed < target {
            Some(target - reclaimed)
        } else {
            None
        },
    }
}

// ---- the order of eviction --------------------------------------------------------------------

/// A candidate and its age.
#[derive(Clone, Debug, PartialEq, Eq)]
pub struct Aged {
    pub candidate: Candidate,
    pub age: Age,
}

/// An [`Aged`], with text as sequences.
#[verifier::ext_equal]
pub struct AgedView {
    pub candidate: CandidateView,
    pub age: Age,
}

impl View for Aged {
    type V = AgedView;

    open spec fn view(&self) -> AgedView {
        AgedView { candidate: self.candidate@, age: self.age }
    }
}

/// Candidates with text as sequences.
pub open spec fn aged_views(list: Seq<Aged>) -> Seq<AgedView> {
    Seq::new(list.len(), |i: int| list[i]@)
}

/// The age of a name in some windows.
pub open spec fn age_in(g: Geometry, windows: Seq<Seq<u64>>, name: Seq<char>) -> Age {
    choose|age: Age| has_age(g, windows, name, age)
}

/// Some candidates with their ages.
pub open spec fn aged_in(
    g: Geometry,
    windows: Seq<Seq<u64>>,
    candidates: Seq<CandidateView>,
) -> Seq<AgedView> {
    Seq::new(
        candidates.len(),
        |i: int|
            AgedView {
                candidate: candidates[i],
                age: age_in(
                    g,
                    windows,
                    qualified_name(candidates[i].bucket, artifact_name(candidates[i].artifact)),
                ),
            },
    )
}

/// Whether one candidate is to be evicted before another: the colder one, and of two as cold the one
/// that was modified earlier.
pub open spec fn goes_before(a: AgedView, b: AgedView) -> bool {
    coldness(a.age) > coldness(b.age) || (coldness(a.age) == coldness(b.age)
        && a.candidate.mtime_ms < b.candidate.mtime_ms)
}

/// A sorted list with one more candidate, which stands behind its equals.
pub open spec fn placed(sorted: Seq<AgedView>, one: AgedView) -> Seq<AgedView>
    decreases sorted.len(),
{
    if sorted.len() == 0 || !goes_before(one, sorted.last()) {
        sorted.push(one)
    } else {
        placed(sorted.drop_last(), one).push(sorted.last())
    }
}

/// The order in which candidates are to be evicted; equals keep theirs.
pub open spec fn ordered(list: Seq<AgedView>) -> Seq<AgedView>
    decreases list.len(),
{
    if list.len() == 0 {
        Seq::empty()
    } else {
        placed(ordered(list.drop_last()), list.last())
    }
}

fn comes_before(a: &Aged, b: &Aged) -> (before: bool)
    ensures
        before == goes_before(a@, b@),
{
    if b.age.is_at_least(a.age) {
        a.age.is_at_least(b.age) && a.candidate.mtime_ms < b.candidate.mtime_ms
    } else {
        true
    }
}

/// Puts a candidate in its place.
fn place(sorted: &mut Vec<Aged>, one: Aged)
    ensures
        aged_views(final(sorted)@) == placed(aged_views(old(sorted)@), one@),
{
    let ghost s = aged_views(sorted@);
    let ghost o = one@;
    let mut i: usize = sorted.len();
    let ghost mut tail: Seq<AgedView> = Seq::empty();
    assert(s.take(i as int) =~= s);
    assert(placed(s, o) =~= placed(s.take(i as int), o) + tail);
    while i > 0 && comes_before(&one, &sorted[i - 1])
        invariant
            i <= sorted@.len(),
            sorted@ == old(sorted)@,
            s == aged_views(sorted@),
            o == one@,
            tail == s.skip(i as int),
            placed(s, o) == placed(s.take(i as int), o) + tail,
        decreases i,
    {
        proof {
            let head = s.take(i as int);
            assert(head.last() == s[i - 1]);
            assert(head.drop_last() =~= s.take(i - 1));
            tail = s.skip(i - 1);
            assert(placed(head, o) == placed(s.take(i - 1), o).push(s[i - 1]));
            assert(placed(s, o) =~= placed(s.take(i - 1), o) + tail);
        }
        i -= 1;
    }
    proof {
        let head = s.take(i as int);
        if i > 0 {
            assert(head.last() == s[i - 1]);
        }
        assert(placed(head, o) == head.push(o));
    }
    sorted.insert(i, one);
    assert(aged_views(sorted@) =~= placed(s, o));
}

/// The candidates in the order in which they are to be evicted.
pub fn probe(ring: &RecencyRing, candidates: Vec<Candidate>) -> (sorted: Vec<Aged>)
    requires
        ring.wf(),
        ring.windows().len() <= 0x1_0000,
    ensures
        aged_views(sorted@) == ordered(
            aged_in(
                ring.geometry(),
                ring.windows(),
                crate::gc::scan::candidate_views(candidates@),
            ),
        ),
        sorted@.len() == candidates@.len(),
        forall|i: int, j: int|
            0 <= i < j < sorted@.len() ==> {
                let (a, b) = (#[trigger] sorted@[i], #[trigger] sorted@[j]);
                &&& coldness(a.age) >= coldness(b.age)
                &&& coldness(a.age) == coldness(b.age) ==> a.candidate.mtime_ms
                    <= b.candidate.mtime_ms
            },
{
    let mut sorted: Vec<Aged> = Vec::new();
    let ghost (g, windows) = (ring.geometry(), ring.windows());
    let ghost all = aged_in(g, windows, crate::gc::scan::candidate_views(candidates@));
    let count: usize = candidates.len();
    let ghost given = candidates@;
    let mut rest: Vec<Candidate> = candidates;
    let mut i: usize = 0;
    proof {
        assert(all.take(0) =~= Seq::empty());
        assert(aged_views(sorted@) =~= ordered(all.take(0)));
        assert(given.skip(0) =~= given);
    }
    while i < count
        invariant
            ring.wf(),
            ring.windows().len() <= 0x1_0000,
            g == ring.geometry(),
            windows == ring.windows(),
            i <= count == given.len(),
            rest@ == given.skip(i as int),
            all == aged_in(g, windows, crate::gc::scan::candidate_views(given)),
            aged_views(sorted@) == ordered(all.take(i as int)),
        decreases count - i,
    {
        let candidate: Candidate = rest.remove(0);
        let name: String = candidate.qualified();
        let age: Age = ring.probe(name.as_str());
        proof {
            assert(candidate == given[i as int]);
            assert(rest@ =~= given.skip(i + 1));
            assert(has_age(g, windows, name@, age));
            let chosen = age_in(g, windows, name@);
            an_age_is_unique(g, windows, name@, age, chosen);
            assert(all.take(i + 1).drop_last() =~= all.take(i as int));
            assert(all.take(i + 1).last() == all[i as int]);
        }
        let one = Aged { candidate, age };
        assert(one@ == all[i as int]);
        place(&mut sorted, one);
        i += 1;
    }
    assert(all.take(i as int) =~= all);
    proof {
        the_order_is_coldest_first(all);
        assert forall|i: int, j: int| 0 <= i < j < sorted@.len() implies {
            let (a, b) = (#[trigger] sorted@[i], #[trigger] sorted@[j]);
            &&& coldness(a.age) >= coldness(b.age)
            &&& coldness(a.age) == coldness(b.age) ==> a.candidate.mtime_ms <= b.candidate.mtime_ms
        } by {
            the_coldest_and_then_the_oldest_go_first(all, i, j);
            assert(aged_views(sorted@)[i] == sorted@[i]@);
            assert(aged_views(sorted@)[j] == sorted@[j]@);
        }
    }
    sorted
}

// ---- eviction ---------------------------------------------------------------------------------

/// Those of some candidates that are cold enough, in their order.
pub open spec fn cold_enough(list: Seq<AgedView>, threshold: Age) -> Seq<AgedView>
    decreases list.len(),
{
    if list.len() == 0 {
        Seq::empty()
    } else {
        let before = cold_enough(list.drop_last(), threshold);
        if coldness(list.last().age) >= coldness(threshold) {
            before.push(list.last())
        } else {
            before
        }
    }
}

/// The places, between two bounds, that a round takes: all of them while the target is unmet, and
/// then the misses, as long as the allowance lasts.
pub open spec fn round_of(
    list: Seq<AgedView>,
    from: int,
    to: int,
    met: bool,
    allowance: nat,
) -> Seq<int>
    decreases to - from,
{
    if to <= from {
        Seq::empty()
    } else {
        let before = round_of(list, from, to - 1, met, allowance);
        if !met || (list[to - 1].age is Miss && before.len() < allowance) {
            before.push(to - 1)
        } else {
            before
        }
    }
}

/// Numbers as integers.
pub open spec fn places(list: Seq<usize>) -> Seq<int> {
    Seq::new(list.len(), |i: int| list[i] as int)
}

/// The sum of what some evictions gave back.
pub open spec fn sum_of(list: Seq<u64>) -> nat
    decreases list.len(),
{
    if list.len() == 0 {
        0
    } else {
        sum_of(list.drop_last()) + list.last() as nat
    }
}

proof fn lemma_sum_prefix(list: Seq<u64>, i: int)
    requires
        0 <= i <= list.len(),
    ensures
        sum_of(list.take(i)) <= sum_of(list),
    decreases list.len(),
{
    if i < list.len() {
        lemma_sum_prefix(list.drop_last(), i);
        assert(list.drop_last().take(i) =~= list.take(i));
    } else {
        assert(list.take(i) =~= list);
    }
}

/// The eviction of a pass's candidates, in rounds.  A round is let finish: the stop is decided on the
/// bytes that were given back, and not on those that were promised.
pub struct EvictionRun {
    eligible: Vec<Aged>,
    at: usize,
    width: usize,
    target: u64,
    reclaimed: u64,
    allowance: usize,
}

impl EvictionRun {
    pub closed spec fn eligible(&self) -> Seq<AgedView> {
        aged_views(self.eligible@)
    }

    /// How many of the candidates have been passed.
    pub closed spec fn at(&self) -> int {
        self.at as int
    }

    /// How many candidates a round looks at.
    pub closed spec fn width(&self) -> int {
        self.width as int
    }

    pub closed spec fn target(&self) -> nat {
        self.target as nat
    }

    pub closed spec fn reclaimed(&self) -> nat {
        self.reclaimed as nat
    }

    /// How many misses may still be taken past the target.
    pub closed spec fn allowance(&self) -> nat {
        self.allowance as nat
    }

    pub open spec fn wf(&self) -> bool {
        0 <= self.at() <= self.eligible().len() && self.width() > 0
    }

    /// Where the round ends that is next.
    pub open spec fn end(&self) -> int {
        if self.at() + self.width() < self.eligible().len() {
            self.at() + self.width()
        } else {
            self.eligible().len() as int
        }
    }

    pub open spec fn met(&self) -> bool {
        self.reclaimed() >= self.target()
    }

    /// Begins the eviction of candidates, which come in the order in which to evict them.
    pub fn new(
        candidates: Vec<Aged>,
        threshold: Age,
        concurrency: usize,
        opportunistic: usize,
        target: u64,
    ) -> (run: Self)
        ensures
            run.wf(),
            run.eligible() == cold_enough(aged_views(candidates@), threshold),
            run.at() == 0,
            run.width() == if concurrency == 0 {
                1
            } else {
                concurrency as int
            },
            run.target() == target,
            run.reclaimed() == 0,
            run.allowance() == opportunistic,
    {
        let ghost all = aged_views(candidates@);
        let ghost given = candidates@;
        let count: usize = candidates.len();
        let mut rest: Vec<Aged> = candidates;
        let mut eligible: Vec<Aged> = Vec::new();
        let mut i: usize = 0;
        proof {
            assert(all.take(0) =~= Seq::empty());
            assert(aged_views(eligible@) =~= cold_enough(all.take(0), threshold));
            assert(given.skip(0) =~= given);
        }
        while i < count
            invariant
                i <= count == given.len(),
                all == aged_views(given),
                rest@ == given.skip(i as int),
                aged_views(eligible@) == cold_enough(all.take(i as int), threshold),
            decreases count - i,
        {
            let ghost before = eligible@;
            let one: Aged = rest.remove(0);
            proof {
                assert(rest@ =~= given.skip(i + 1));
                assert(all.take(i + 1).drop_last() =~= all.take(i as int));
                assert(all.take(i + 1).last() == one@);
            }
            if one.age.is_at_least(threshold) {
                let ghost o = one@;
                eligible.push(one);
                assert(aged_views(eligible@) =~= aged_views(before).push(o));
            }
            i += 1;
        }
        assert(all.take(i as int) =~= all);
        EvictionRun {
            eligible,
            at: 0,
            width: if concurrency == 0 {
                1
            } else {
                concurrency
            },
            target,
            reclaimed: 0,
            allowance: opportunistic,
        }
    }

    pub fn candidate(&self, i: usize) -> (candidate: &Candidate)
        requires
            i < self.eligible().len(),
        ensures
            candidate@ == self.eligible()[i as int].candidate,
    {
        &self.eligible[i].candidate
    }

    /// The candidates that the next round takes, by their places; none where the run is over.
    pub fn next_round(&mut self) -> (round: Vec<usize>)
        requires
            old(self).wf(),
        ensures
            final(self).wf(),
            final(self).eligible() == old(self).eligible(),
            final(self).width() == old(self).width(),
            final(self).target() == old(self).target(),
            final(self).reclaimed() == old(self).reclaimed(),
            places(round@) == round_of(
                old(self).eligible(),
                old(self).at(),
                old(self).end(),
                old(self).met(),
                old(self).allowance(),
            ),
            forall|k: int| 0 <= k < round@.len() ==> #[trigger] round@[k] < old(self).eligible().len(),
            final(self).at() == if round@.len() == 0 {
                old(self).eligible().len() as int
            } else {
                old(self).end()
            },
            final(self).allowance() == if old(self).met() {
                (old(self).allowance() - round@.len()) as nat
            } else {
                old(self).allowance()
            },
    {
        let total: usize = self.eligible.len();
        let from: usize = self.at;
        let to: usize = if total - from <= self.width {
            total
        } else {
            from + self.width
        };
        let met: bool = self.reclaimed >= self.target;
        let allowance: usize = self.allowance;
        let mut round: Vec<usize> = Vec::new();
        let mut i: usize = from;
        let ghost list = self.eligible();
        assert(places(round@) =~= round_of(list, from as int, i as int, met, allowance as nat));
        while i < to
            invariant
                from <= i <= to <= list.len(),
                list == self.eligible(),
                list == aged_views(self.eligible@),
                places(round@) == round_of(list, from as int, i as int, met, allowance as nat),
                met ==> round@.len() <= allowance,
                forall|k: int| 0 <= k < round@.len() ==> #[trigger] round@[k] < list.len(),
            decreases to - i,
        {
            let ghost before = round@;
            let miss: bool = match self.eligible[i].age {
                Age::Miss => true,
                Age::Window(_) => false,
            };
            if !met || (miss && round.len() < allowance) {
                round.push(i);
                assert(places(round@) =~= places(before).push(i as int));
            }
            i += 1;
        }
        if round.len() == 0 {
            self.at = total;
        } else {
            self.at = to;
        }
        if met {
            self.allowance = allowance - round.len();
        }
        round
    }

    /// Takes in what a round gave back.
    pub fn settle_round(&mut self, given_back: &Vec<u64>)
        requires
            old(self).wf(),
            old(self).reclaimed() + sum_of(given_back@) <= u64::MAX,
        ensures
            final(self).wf(),
            final(self).reclaimed() == old(self).reclaimed() + sum_of(given_back@),
            final(self).eligible() == old(self).eligible(),
            final(self).at() == old(self).at(),
            final(self).width() == old(self).width(),
            final(self).target() == old(self).target(),
            final(self).allowance() == old(self).allowance(),
    {
        let mut i: usize = 0;
        assert(given_back@.take(0) =~= Seq::empty());
        while i < given_back.len()
            invariant
                i <= given_back@.len(),
                old(self).reclaimed() + sum_of(given_back@) <= u64::MAX,
                self.reclaimed == old(self).reclaimed + sum_of(given_back@.take(i as int)),
                self.eligible == old(self).eligible,
                self.at == old(self).at,
                self.width == old(self).width,
                self.target == old(self).target,
                self.allowance == old(self).allowance,
            decreases given_back@.len() - i,
        {
            proof {
                assert(given_back@.take(i + 1).drop_last() =~= given_back@.take(i as int));
                assert(given_back@.take(i + 1).last() == given_back@[i as int]);
                lemma_sum_prefix(given_back@, i + 1);
            }
            self.reclaimed = self.reclaimed + given_back[i];
            i += 1;
        }
        assert(given_back@.take(i as int) =~= given_back@);
    }

    /// The bytes that the run gave back.
    pub fn total(&self) -> (bytes: u64)
        ensures
            bytes == self.reclaimed(),
    {
        self.reclaimed
    }
}

// ---- the outcome ------------------------------------------------------------------------------

/// What a pass saw.
#[derive(Clone, Copy, Debug, PartialEq, Eq)]
pub struct PassReport {
    pub reclaimed: u64,
    pub target: u64,
    /// The usage on either side of the pass, where both looks succeeded.
    pub usage: Option<(Reading, Reading)>,
}

/// The report of a pass.
pub fn report(before: Option<Reading>, after: Option<Reading>, target: u64, reclaimed: u64) -> (report:
    PassReport)
    ensures
        report.reclaimed == reclaimed,
        report.target == target,
        report.usage == match (before, after) {
            (Some(b), Some(a)) => Some((b, a)),
            _ => None,
        },
{
    let usage: Option<(Reading, Reading)> = match (before, after) {
        (Some(b), Some(a)) => Some((b, a)),
        _ => None,
    };
    PassReport { reclaimed, target, usage }
}

/// Where the ladder stands after a pass met, missed or had no target.
pub open spec fn after_target(at: int, rungs: int, report: PassReport) -> int {
    if report.target == 0 {
        at
    } else if report.reclaimed >= report.target {
        if at > 0 {
            at - 1
        } else {
            0
        }
    } else if at + 1 < rungs {
        at + 1
    } else {
        at
    }
}

/// Where the ladder stands after a pass.
pub open spec fn settled_at(at: int, rungs: int, reversible_end: int, report: PassReport) -> int {
    match report.usage {
        None => at,
        Some((before, after)) => if after.below_low_water {
            0
        } else {
            let moved = after_target(at, rungs, report);
            if after.usage.used > before.usage.used && moved < reversible_end - 1 {
                reversible_end - 1
            } else {
                moved
            }
        },
    }
}

/// Moves the ladder on the evidence of one pass, by one rung at most.  The exception is a cache that
/// filled while the pass ran, where the rungs that cost only work jump to their bounds.  `true` where
/// the cache is too small for what it is used for.
pub fn settle(ladder: &mut Ladder, report: &PassReport) -> (undersized: bool)
    requires
        old(ladder).wf(),
    ensures
        final(ladder).wf(),
        final(ladder).same_rungs(old(ladder)),
        final(ladder).at() == settled_at(
            old(ladder).at(),
            old(ladder).rungs().len() as int,
            old(ladder).reversible_end(),
            *report,
        ),
        undersized == (report.usage matches Some((_, after)) && !after.below_low_water
            && report.reclaimed < report.target && final(ladder).at() == final(ladder).rungs().len()
            - 1),
{
    let (before, after) = match report.usage {
        Some(pair) => pair,
        None => {
            return false;
        },
    };
    if after.below_low_water {
        ladder.reset();
        return false;
    }
    if report.target > 0 {
        if report.reclaimed >= report.target {
            ladder.relax();
        } else {
            ladder.escalate();
        }
    }
    if after.usage.used > before.usage.used {
        ladder.escalate_reversible();
    }
    ladder.clamped() && report.reclaimed < report.target
}

// ---- the clock --------------------------------------------------------------------------------

/// When passes start.
#[derive(Debug)]
pub struct Schedule {
    running: bool,
    cadence: u128,
}

impl Schedule {
    /// Whether a pass runs, or has run and was not settled.
    pub closed spec fn running(&self) -> bool {
        self.running
    }

    /// The time between passes, in nanoseconds.
    pub closed spec fn cadence(&self) -> u128 {
        self.cadence
    }

    pub fn new(ladder: &Ladder) -> (schedule: Self)
        requires
            ladder.wf(),
        ensures
            !schedule.running(),
            schedule.cadence() == ladder.rungs()[ladder.at()].interval,
    {
        Schedule { running: false, cadence: ladder.current().interval }
    }

    /// The clock ticked.  `true` where a pass starts: there is never a second one, and one that
    /// waits to be settled is not replaced.
    pub fn tick(&mut self) -> (start: bool)
        ensures
            start == !old(self).running(),
            final(self).running(),
            final(self).cadence() == old(self).cadence(),
    {
        let start: bool = !self.running;
        self.running = true;
        start
    }

    /// A pass ended, and its report is settled or lost.
    pub fn finished(&mut self)
        ensures
            !final(self).running(),
            final(self).cadence() == old(self).cadence(),
    {
        self.running = false;
    }

    /// The interval to rebuild the clock with, where a rung changed it.
    pub fn retime(&mut self, ladder: &Ladder) -> (interval: Option<u128>)
        requires
            ladder.wf(),
        ensures
            final(self).cadence() == ladder.rungs()[ladder.at()].interval,
            final(self).running() == old(self).running(),
            interval == if old(self).cadence() == final(self).cadence() {
                None
            } else {
                Some(final(self).cadence())
            },
    {
        let wanted: u128 = ladder.current().interval;
        if wanted == self.cadence {
            None
        } else {
            self.cadence = wanted;
            Some(wanted)
        }
    }
}

// ---- laws -------------------------------------------------------------------------------------

/// Whether no candidate stands before one that goes before it.
pub open spec fn coldest_first(s: Seq<AgedView>) -> bool {
    forall|i: int, j: int| 0 <= i < j < s.len() ==> !goes_before(#[trigger] s[j], #[trigger] s[i])
}

proof fn lemma_placed(sorted: Seq<AgedView>, one: AgedView) -> (at: int)
    ensures
        0 <= at <= sorted.len(),
        placed(sorted, one) == sorted.insert(at, one),
        forall|k: int| at <= k < sorted.len() ==> goes_before(one, #[trigger] sorted[k]),
        at > 0 ==> !goes_before(one, sorted[at - 1]),
    decreases sorted.len(),
{
    if sorted.len() == 0 || !goes_before(one, sorted.last()) {
        assert(sorted.push(one) =~= sorted.insert(sorted.len() as int, one));
        sorted.len() as int
    } else {
        let rest = sorted.drop_last();
        let at = lemma_placed(rest, one);
        assert(placed(sorted, one) =~= sorted.insert(at, one));
        assert forall|k: int| at <= k < sorted.len() implies goes_before(
            one,
            #[trigger] sorted[k],
        ) by {
            if k < rest.len() {
                assert(sorted[k] == rest[k]);
            }
        }
        at
    }
}

/// The order of eviction loses and adds nothing, and is coldest first, and oldest first among those
/// as cold.
pub proof fn the_order_is_coldest_first(list: Seq<AgedView>)
    ensures
        ordered(list).to_multiset() == list.to_multiset(),
        ordered(list).len() == list.len(),
        coldest_first(ordered(list)),
    decreases list.len(),
{
    if list.len() > 0 {
        let (before, one) = (ordered(list.drop_last()), list.last());
        the_order_is_coldest_first(list.drop_last());
        let at = lemma_placed(before, one);
        let after = before.insert(at, one);
        to_multiset_insert(before, at, one);
        list.drop_last().to_multiset_ensures();
        assert(list.drop_last().push(one) =~= list);
        assert forall|i: int, j: int| 0 <= i < j < after.len() implies !goes_before(
            #[trigger] after[j],
            #[trigger] after[i],
        ) by {
            if i < at && j == at {
                if i < at - 1 {
                    assert(!goes_before(before[at - 1], before[i]));
                }
            } else if i == at {
                assert(goes_before(one, before[j - 1]));
            } else {
                let (x, y) = (if i < at {
                    i
                } else {
                    i - 1
                }, if j < at {
                    j
                } else {
                    j - 1
                });
                assert(!goes_before(before[y], before[x]));
            }
        }
    } else {
        assert(ordered(list) =~= list);
    }
}

/// In the order of eviction no candidate comes before a colder one, and of two as cold none that was
/// modified later comes before the other.
pub proof fn the_coldest_and_then_the_oldest_go_first(list: Seq<AgedView>, i: int, j: int)
    requires
        0 <= i < j < list.len(),
    ensures
        ({
            let (a, b) = (ordered(list)[i], ordered(list)[j]);
            &&& coldness(a.age) >= coldness(b.age)
            &&& coldness(a.age) == coldness(b.age) ==> a.candidate.mtime_ms
                <= b.candidate.mtime_ms
            &&& a.age is Miss || (b.age !is Miss && a.age->Window_0 >= b.age->Window_0)
        }),
{
    the_order_is_coldest_first(list);
    assert(!goes_before(ordered(list)[j], ordered(list)[i]));
}

/// What is cold enough keeps its order.
pub proof fn the_threshold_keeps_the_order(list: Seq<AgedView>, threshold: Age)
    requires
        coldest_first(list),
    ensures
        coldest_first(cold_enough(list, threshold)),
        forall|i: int|
            0 <= i < cold_enough(list, threshold).len() ==> coldness(
                (#[trigger] cold_enough(list, threshold)[i]).age,
            ) >= coldness(threshold) && list.contains(cold_enough(list, threshold)[i]),
    decreases list.len(),
{
    if list.len() > 0 {
        let rest = list.drop_last();
        the_threshold_keeps_the_order(rest, threshold);
        let (before, s) = (cold_enough(rest, threshold), cold_enough(list, threshold));
        assert forall|i: int| 0 <= i < s.len() implies coldness((#[trigger] s[i]).age) >= coldness(
            threshold,
        ) && list.contains(s[i]) by {
            if i < before.len() {
                assert(s[i] == before[i]);
                let k = choose|k: int| 0 <= k < rest.len() && rest[k] == before[i];
                assert(list[k] == s[i]);
            } else {
                assert(list[list.len() - 1] == s[i]);
            }
        }
        assert forall|i: int, j: int| 0 <= i < j < s.len() implies !goes_before(
            #[trigger] s[j],
            #[trigger] s[i],
        ) by {
            if j == before.len() {
                let k = choose|k: int| 0 <= k < rest.len() && rest[k] == before[i];
                assert(list[k] == s[i]);
                assert(!goes_before(list[list.len() - 1], list[k]));
            } else {
                assert(s[j] == before[j] && s[i] == before[i]);
            }
        }
    }
}

/// Once the target is met, a round takes misses alone, and no more of them than are allowed.
pub proof fn past_the_target_only_misses_go(
    list: Seq<AgedView>,
    from: int,
    to: int,
    allowance: nat,
)
    requires
        0 <= from <= to <= list.len(),
    ensures
        round_of(list, from, to, true, allowance).len() <= allowance,
        forall|k: int|
            0 <= k < round_of(list, from, to, true, allowance).len() ==> from <= (
            #[trigger] round_of(list, from, to, true, allowance)[k]) < to
                && list[round_of(list, from, to, true, allowance)[k]].age is Miss,
    decreases to - from,
{
    if to > from {
        past_the_target_only_misses_go(list, from, to - 1, allowance);
    }
}

/// A round takes candidates of its own window alone, each of them once and in order, and all of them
/// for as long as the target is not met.  Rounds follow each other, so no candidate is taken twice.
pub proof fn a_candidate_is_taken_once(
    list: Seq<AgedView>,
    from: int,
    to: int,
    met: bool,
    allowance: nat,
)
    requires
        0 <= from <= to <= list.len(),
    ensures
        forall|k: int|
            0 <= k < round_of(list, from, to, met, allowance).len() ==> from <= (
            #[trigger] round_of(list, from, to, met, allowance)[k]) < to,
        forall|i: int, j: int|
            0 <= i < j < round_of(list, from, to, met, allowance).len() ==> (#[trigger] round_of(
                list,
                from,
                to,
                met,
                allowance,
            )[i]) < (#[trigger] round_of(list, from, to, met, allowance)[j]),
        !met ==> round_of(list, from, to, met, allowance).len() == to - from,
    decreases to - from,
{
    if to > from {
        a_candidate_is_taken_once(list, from, to - 1, met, allowance);
        let before = round_of(list, from, to - 1, met, allowance);
        let round = round_of(list, from, to, met, allowance);
        assert(round == before || round == before.push(to - 1));
        assert forall|k: int| 0 <= k < round.len() implies from <= (#[trigger] round[k]) < to by {
            if k < before.len() {
                assert(round[k] == before[k]);
            }
        }
        assert forall|i: int, j: int| 0 <= i < j < round.len() implies (#[trigger] round[i]) < (
        #[trigger] round[j]) by {
            assert(round[i] == before[i]);
            if j < before.len() {
                assert(round[j] == before[j]);
            }
        }
    }
}

/// A round that takes nothing ends the run for good: no later candidate could have been taken.
pub proof fn an_empty_round_is_the_last(
    list: Seq<AgedView>,
    from: int,
    to: int,
    later: int,
    met: bool,
    allowance: nat,
)
    requires
        coldest_first(list),
        0 <= from < to <= later < list.len(),
        round_of(list, from, to, met, allowance).len() == 0,
    ensures
        met,
        allowance == 0 || !(list[later].age is Miss),
{
    let shorter = round_of(list, from, to - 1, met, allowance);
    if allowance > 0 {
        lemma_first_is_no_miss(list, from, to, met, allowance);
        assert(!goes_before(list[later], list[from]));
    }
}

proof fn lemma_first_is_no_miss(list: Seq<AgedView>, from: int, to: int, met: bool, allowance: nat)
    requires
        0 <= from < to <= list.len(),
        allowance > 0,
        round_of(list, from, to, met, allowance).len() == 0,
    ensures
        !(list[from].age is Miss),
    decreases to - from,
{
    if to - 1 > from {
        lemma_first_is_no_miss(list, from, to - 1, met, allowance);
    } else {
        assert(round_of(list, from, from, met, allowance).len() == 0);
    }
}

/// Without evidence the ladder stays where it is, and with it it moves by one rung at most, but for a
/// cache that filled while the pass ran: then it may jump, and never past the rungs that cost only
/// work.
pub proof fn one_pass_moves_one_rung(at: int, rungs: int, reversible_end: int, report: PassReport)
    requires
        0 <= at < rungs,
        1 <= reversible_end < rungs,
    ensures
        report.usage is None ==> settled_at(at, rungs, reversible_end, report) == at,
        report.usage matches Some((before, after)) && !after.below_low_water && after.usage.used
            <= before.usage.used ==> at - 1 <= settled_at(at, rungs, reversible_end, report) <= at
            + 1,
        report.usage matches Some((before, after)) && !after.below_low_water && after.usage.used
            > before.usage.used ==> settled_at(at, rungs, reversible_end, report) <= at + 1
            || settled_at(at, rungs, reversible_end, report) == reversible_end - 1,
        report.usage matches Some((before, after)) && after.below_low_water ==> settled_at(
            at,
            rungs,
            reversible_end,
            report,
        ) == 0,
        0 <= settled_at(at, rungs, reversible_end, report) < rungs,
{
}

/// The buckets that may be evicted from are those that are ready and accounted for, no other, in the
/// order of the ready ones.
pub proof fn only_ready_and_accounted_buckets_are_common(
    ready: Seq<String>,
    more: Seq<String>,
    one: String,
    accounted: Seq<String>,
)
    ensures
        common_names(ready + more, accounted) == common_names(ready, accounted) + common_names(
            more,
            accounted,
        ),
        (exists|i: int| 0 <= i < accounted.len() && #[trigger] accounted[i]@ == one@)
            ==> common_names(seq![one], accounted) == seq![one@],
        (forall|i: int| 0 <= i < accounted.len() ==> #[trigger] accounted[i]@ != one@)
            ==> common_names(seq![one], accounted).len() == 0,
    decreases more.len(),
{
    assert(seq![one].drop_last() =~= Seq::<String>::empty());
    reveal_with_fuel(common_names, 2);
    if exists|i: int| 0 <= i < accounted.len() && #[trigger] accounted[i]@ == one@ {
        assert(common_names(seq![one], accounted) =~= seq![one@]);
    }
    if more.len() == 0 {
        assert(ready + more =~= ready);
        assert(common_names(ready, accounted) + common_names(more, accounted) =~= common_names(
            ready,
            accounted,
        ));
    } else {
        only_ready_and_accounted_buckets_are_common(ready, more.drop_last(), one, accounted);
        assert((ready + more).drop_last() =~= ready + more.drop_last());
        assert((ready + more).last() == more.last());
        assert(common_names(ready + more, accounted) =~= common_names(ready, accounted)
            + common_names(more, accounted));
    }
}

/// Every candidate that is as cold as the threshold, or colder, is eligible, and none that is warmer.
pub proof fn the_threshold_spares_the_warm_and_no_other(
    list: Seq<AgedView>,
    more: Seq<AgedView>,
    one: AgedView,
    threshold: Age,
)
    ensures
        cold_enough(list + more, threshold) == cold_enough(list, threshold) + cold_enough(
            more,
            threshold,
        ),
        coldness(one.age) >= coldness(threshold) ==> cold_enough(seq![one], threshold) == seq![one],
        coldness(one.age) < coldness(threshold) ==> cold_enough(seq![one], threshold).len() == 0,
    decreases more.len(),
{
    assert(seq![one].drop_last() =~= Seq::<AgedView>::empty());
    reveal_with_fuel(cold_enough, 2);
    if coldness(one.age) >= coldness(threshold) {
        assert(cold_enough(seq![one], threshold) =~= seq![one]);
    }
    if more.len() == 0 {
        assert(list + more =~= list);
        assert(cold_enough(list, threshold) + cold_enough(more, threshold) =~= cold_enough(
            list,
            threshold,
        ));
    } else {
        the_threshold_spares_the_warm_and_no_other(list, more.drop_last(), one, threshold);
        assert((list + more).drop_last() =~= list + more.drop_last());
        assert((list + more).last() == more.last());
        assert(cold_enough(list + more, threshold) =~= cold_enough(list, threshold) + cold_enough(
            more,
            threshold,
        ));
    }
}

/// Past the target no miss is passed over while the allowance lasts.
pub proof fn no_miss_is_passed_over_within_the_allowance(
    list: Seq<AgedView>,
    from: int,
    to: int,
    allowance: nat,
    at: int,
)
    requires
        0 <= from <= at < to <= list.len(),
        list[at].age is Miss,
    ensures
        round_of(list, from, to, true, allowance).contains(at) || round_of(
            list,
            from,
            to,
            true,
            allowance,
        ).len() == allowance,
    decreases to - from,
{
    let before = round_of(list, from, to - 1, true, allowance);
    let round = round_of(list, from, to, true, allowance);
    past_the_target_only_misses_go(list, from, to - 1, allowance);
    if at < to - 1 {
        no_miss_is_passed_over_within_the_allowance(list, from, to - 1, allowance, at);
        if before.contains(at) {
            let k = choose|k: int| 0 <= k < before.len() && before[k] == at;
            assert(round[k] == at);
        }
    } else if before.len() < allowance {
        assert(round[before.len() as int] == at);
    }
}

/// What was given back is added up.
pub proof fn what_is_given_back_adds_up(a: Seq<u64>, b: Seq<u64>, one: u64)
    ensures
        sum_of(a + b) == sum_of(a) + sum_of(b),
        sum_of(seq![one]) == one,
        sum_of(Seq::empty()) == 0,
    decreases b.len(),
{
    assert(seq![one].drop_last() =~= Seq::<u64>::empty());
    reveal_with_fuel(sum_of, 2);
    if b.len() == 0 {
        assert(a + b =~= a);
    } else {
        what_is_given_back_adds_up(a, b.drop_last(), one);
        assert((a + b).drop_last() =~= a + b.drop_last());
        assert((a + b).last() == b.last());
    }
}

/// The way the ladder moves on the evidence of a pass: down where the target was met, up where it was
/// not, as far as there are rungs, and nowhere without a target; a cache that filled meanwhile lifts it
/// to the last of the rungs that cost only work; below the low-water mark it starts again.
pub proof fn the_ladder_moves_by_the_evidence(
    at: int,
    rungs: int,
    reversible_end: int,
    report: PassReport,
)
    requires
        0 <= at < rungs,
        1 <= reversible_end < rungs,
        report.usage is Some,
    ensures
        ({
            let (before, after) = report.usage->0;
            let now = settled_at(at, rungs, reversible_end, report);
            let grew = after.usage.used > before.usage.used;
            let met = report.reclaimed >= report.target;
            &&& after.below_low_water ==> now == 0
            &&& !after.below_low_water && !grew && report.target > 0 && met && at > 0 ==> now == at - 1
            &&& !after.below_low_water && !grew && report.target > 0 && met && at == 0 ==> now == 0
            &&& !after.below_low_water && !grew && report.target > 0 && !met && at < rungs - 1 ==> now
                == at + 1
            &&& !after.below_low_water && !grew && report.target > 0 && !met && at == rungs - 1 ==> now
                == at
            &&& !after.below_low_water && !grew && report.target == 0 ==> now == at
            &&& !after.below_low_water && grew ==> now >= reversible_end - 1
            &&& !after.below_low_water && grew && at >= reversible_end && report.target > 0 && !met
                && at < rungs - 1 ==> now == at + 1
            &&& !after.below_low_water && grew && at >= reversible_end && report.target > 0 && met
                ==> now == at - 1
            &&& !after.below_low_water && grew && at < reversible_end - 1 ==> now == reversible_end - 1
        }),
{
}

/// Every candidate comes with the age of its own name.
pub proof fn each_candidate_has_the_age_of_its_name(
    g: Geometry,
    windows: Seq<Seq<u64>>,
    candidates: Seq<CandidateView>,
    i: int,
)
    requires
        windows.len() <= 0x1_0000,
        0 <= i < candidates.len(),
    ensures
        aged_in(g, windows, candidates).len() == candidates.len(),
        aged_in(g, windows, candidates)[i].candidate == candidates[i],
        has_age(
            g,
            windows,
            candidates[i].bucket.push('/') + (match candidates[i].artifact {
                ArtifactView::Body(key) => key,
                ArtifactView::Shadow(key) => key,
            }),
            aged_in(g, windows, candidates)[i].age,
        ),
{
    let name = qualified_name(candidates[i].bucket, artifact_name(candidates[i].artifact));
    every_name_has_an_age(g, windows, name);
}

/// What is said of a candidate with an age is said of the candidate and of the age.
pub proof fn an_aged_candidate_is_seen_as_it_is(x: Aged)
    ensures
        x@.candidate == x.candidate@,
        x@.age == x.age,
{
}

/// Lists are seen one by one, in their order.
pub proof fn lists_are_seen_one_by_one(a: Seq<Aged>, b: Seq<String>, c: Seq<usize>, i: int)
    ensures
        aged_views(a).len() == a.len(),
        0 <= i < a.len() ==> aged_views(a)[i] == a[i]@,
        bucket_views(b).len() == b.len(),
        0 <= i < b.len() ==> bucket_views(b)[i] == b[i]@,
        places(c).len() == c.len(),
        0 <= i < c.len() ==> places(c)[i] == c[i],
{
}

/// Whether a candidate is as cold and as old as another.
pub open spec fn equals(one: AgedView) -> spec_fn(AgedView) -> bool {
    |x: AgedView|
        coldness(x.age) == coldness(one.age) && x.candidate.mtime_ms == one.candidate.mtime_ms
}

/// Candidates that are as cold and as old as each other keep the order in which they were found.
pub proof fn equal_candidates_keep_their_order(list: Seq<AgedView>, one: AgedView)
    ensures
        ordered(list).filter(equals(one)) == list.filter(equals(one)),
    decreases list.len(),
{
    broadcast use Seq::lemma_filter_push;

    if list.len() > 0 {
        let (front, last) = (list.drop_last(), list.last());
        let sorted = ordered(front);
        equal_candidates_keep_their_order(front, one);
        let at = lemma_placed(sorted, last);
        let (left, right) = (sorted.take(at), sorted.skip(at));
        assert(placed(sorted, last) =~= left.push(last) + right);
        assert(sorted =~= left + right);
        Seq::filter_distributes_over_add(left.push(last), right, equals(one));
        Seq::filter_distributes_over_add(left, right, equals(one));
        assert(list =~= front.push(last));
        if equals(one)(last) {
            assert forall|k: int| 0 <= k < right.len() implies !equals(one)(#[trigger] right[k]) by {
                assert(right[k] == sorted[at + k]);
                assert(goes_before(last, sorted[at + k]));
            }
            lemma_none_pass(right, equals(one));
            assert(left.filter(equals(one)) + right.filter(equals(one)) =~= left.filter(
                equals(one),
            ));
            assert(left.filter(equals(one)).push(last) + right.filter(equals(one)) =~= left.filter(
                equals(one),
            ).push(last));
        }
    }
}

proof fn lemma_none_pass(list: Seq<AgedView>, pass: spec_fn(AgedView) -> bool)
    requires
        forall|k: int| 0 <= k < list.len() ==> !pass(#[trigger] list[k]),
    ensures
        list.filter(pass).len() == 0,
    decreases list.len(),
{
    reveal(Seq::filter);
    if list.len() > 0 {
        assert forall|k: int| 0 <= k < list.drop_last().len() implies !pass(
            #[trigger] list.drop_last()[k],
        ) by {
            assert(list.drop_last()[k] == list[k]);
        }
        lemma_none_pass(list.drop_last(), pass);
    }
}

/// A round reaches as far as it is wide, or to the end, and a run owes nothing more exactly where it has
/// given back its target.
pub proof fn a_round_is_as_wide_as_the_run(run: EvictionRun)
    requires
        run.wf(),
    ensures
        run.at() <= run.end() <= run.eligible().len(),
        run.end() - run.at() <= run.width(),
        run.end() - run.at() == run.width() || run.end() == run.eligible().len(),
        run.met() <==> run.reclaimed() >= run.target(),
{
}

/// A name is among others exactly where one of them is that name.
pub proof fn a_name_is_among_those_that_hold_it(names: Seq<String>, name: Seq<char>, i: int)
    ensures
        0 <= i < names.len() ==> is_among(names, names[i]@),
        is_among(names, name) ==> exists|j: int| 0 <= j < names.len() && #[trigger] names[j]@ == name,
{
}

} // verus!
