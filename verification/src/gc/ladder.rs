//! The escalation ladder: how hard the collector pushes back on pressure.
//!
//! The answers are spent in order: first how often it passes, then how wide each pass runs, and only
//! then how warm a key it takes.  The rungs are one list of settings and the ladder is a place in
//! it, so that what was taken last is given back first.

use crate::config::Gc;
use crate::gc::age::{coldness, Age};
use vstd::prelude::*;

verus! {

/// What one rung leaves the collector configured to do.
#[derive(Clone, Copy, Debug, PartialEq, Eq, Structural)]
pub struct Setting {
    /// The time between passes, in nanoseconds.
    pub interval: u128,
    pub concurrency: usize,
    /// Candidates of this age and colder may be evicted.
    pub threshold: Age,
}

/// Which kind of rung the current setting is.
#[derive(Clone, Copy, Debug, PartialEq, Eq, Structural)]
pub enum Rung {
    /// Nothing is escalated.
    Unpressured,
    Interval,
    Concurrency,
    Threshold,
}

/// A configured interval in nanoseconds; zero means as fast as can be, one millisecond.
pub open spec fn interval_ns(ms: u64) -> nat {
    (if ms < 1 {
        1nat
    } else {
        ms as nat
    }) * 1_000_000
}

pub open spec fn larger(a: nat, b: nat) -> nat {
    if a < b {
        b
    } else {
        a
    }
}

pub open spec fn smaller(a: nat, b: nat) -> nat {
    if a < b {
        a
    } else {
        b
    }
}

/// The halves of `from`, each half of the one before, down to `floor`.
pub open spec fn halvings(from: nat, floor: nat) -> Seq<nat>
    decreases from,
{
    if from <= floor || from == 0 {
        Seq::empty()
    } else {
        let next = larger(from / 2, floor);
        seq![next] + halvings(next, floor)
    }
}

/// The doubles of `from`, each double the one before, up to `ceiling`.
pub open spec fn doublings(from: nat, ceiling: nat) -> Seq<nat>
    decreases ceiling - from,
{
    if from >= ceiling || from == 0 {
        Seq::empty()
    } else {
        let next = smaller(from * 2, ceiling);
        seq![next] + doublings(next, ceiling)
    }
}

/// The base of the ladder that a configuration makes, and the bounds of its cheap rungs.
pub open spec fn base_interval(cfg: Gc) -> nat {
    interval_ns(cfg.interval_ms)
}

pub open spec fn floor_interval(cfg: Gc) -> nat {
    smaller(interval_ns(cfg.min_interval_ms), base_interval(cfg))
}

pub open spec fn base_concurrency(cfg: Gc) -> nat {
    larger(cfg.concurrency as nat, 1)
}

pub open spec fn ceiling_concurrency(cfg: Gc) -> nat {
    larger(cfg.max_concurrency as nat, base_concurrency(cfg))
}

/// The depth of the ring as the threshold rungs count it.
pub open spec fn deepest(depth: usize) -> nat {
    depth as nat % 0x1_0000
}

/// How many rungs come before the concurrency rungs.
pub open spec fn interval_rungs(cfg: Gc) -> nat {
    1 + halvings(base_interval(cfg), floor_interval(cfg)).len()
}

/// How many rungs come before the threshold rungs.
pub open spec fn reversible_rungs(cfg: Gc) -> nat {
    interval_rungs(cfg) + doublings(base_concurrency(cfg), ceiling_concurrency(cfg)).len()
}

/// Rung number `i` of the ladder that a configuration makes over a ring of a depth.
pub open spec fn rung_at(cfg: Gc, depth: usize, i: int) -> Setting {
    let halves = halvings(base_interval(cfg), floor_interval(cfg));
    let doubles = doublings(base_concurrency(cfg), ceiling_concurrency(cfg));
    let interval = if i == 0 {
        base_interval(cfg)
    } else if i < interval_rungs(cfg) {
        halves[i - 1]
    } else {
        floor_interval(cfg)
    };
    let concurrency = if i < interval_rungs(cfg) {
        base_concurrency(cfg)
    } else if i < reversible_rungs(cfg) {
        doubles[i - interval_rungs(cfg)]
    } else {
        ceiling_concurrency(cfg)
    };
    Setting {
        interval: interval as u128,
        concurrency: concurrency as usize,
        threshold: if i < reversible_rungs(cfg) {
            Age::Miss
        } else {
            Age::Window((deepest(depth) - (i - reversible_rungs(cfg))) as u16)
        },
    }
}

/// How many rungs the ladder has.
pub open spec fn rung_count(cfg: Gc, depth: usize) -> nat {
    reversible_rungs(cfg) + deepest(depth) + 1
}

proof fn lemma_halvings(from: nat, floor: nat)
    requires
        0 < floor <= from,
    ensures
        forall|i: int|
            0 <= i < halvings(from, floor).len() ==> floor <= #[trigger] halvings(from, floor)[i]
                < from,
        forall|i: int, j: int|
            0 <= i < j < halvings(from, floor).len() ==> #[trigger] halvings(from, floor)[i]
                > #[trigger] halvings(from, floor)[j],
        halvings(from, floor).len() > 0 ==> halvings(from, floor).last() == floor,
        halvings(from, floor).len() == 0 ==> from == floor,
    decreases from,
{
    if from > floor {
        let next = larger(from / 2, floor);
        lemma_halvings(next, floor);
        let (all, rest) = (halvings(from, floor), halvings(next, floor));
        assert forall|i: int| 0 <= i < all.len() implies floor <= #[trigger] all[i] < from by {
            if i > 0 {
                assert(all[i] == rest[i - 1]);
            }
        }
        assert forall|i: int, j: int| 0 <= i < j < all.len() implies #[trigger] all[i]
            > #[trigger] all[j] by {
            assert(all[j] == rest[j - 1]);
            if i > 0 {
                assert(all[i] == rest[i - 1]);
            }
        }
        if rest.len() > 0 {
            assert(all.last() == rest.last());
        }
    }
}

proof fn lemma_doublings(from: nat, ceiling: nat)
    requires
        0 < from <= ceiling,
    ensures
        forall|i: int|
            0 <= i < doublings(from, ceiling).len() ==> from < #[trigger] doublings(from, ceiling)[i]
                <= ceiling,
        forall|i: int, j: int|
            0 <= i < j < doublings(from, ceiling).len() ==> #[trigger] doublings(from, ceiling)[i]
                < #[trigger] doublings(from, ceiling)[j],
        doublings(from, ceiling).len() > 0 ==> doublings(from, ceiling).last() == ceiling,
        doublings(from, ceiling).len() == 0 ==> from == ceiling,
    decreases ceiling - from,
{
    if from < ceiling {
        let next = smaller(from * 2, ceiling);
        lemma_doublings(next, ceiling);
        let (all, rest) = (doublings(from, ceiling), doublings(next, ceiling));
        assert forall|i: int| 0 <= i < all.len() implies from < #[trigger] all[i] <= ceiling by {
            if i > 0 {
                assert(all[i] == rest[i - 1]);
            }
        }
        assert forall|i: int, j: int| 0 <= i < j < all.len() implies #[trigger] all[i]
            < #[trigger] all[j] by {
            assert(all[j] == rest[j - 1]);
            if i > 0 {
                assert(all[i] == rest[i - 1]);
            }
        }
        if rest.len() > 0 {
            assert(all.last() == rest.last());
        }
    }
}

fn interval(ms: u64) -> (ns: u128)
    ensures
        ns == interval_ns(ms),
        ns > 0,
{
    (if ms < 1 {
        1u128
    } else {
        ms as u128
    }) * 1_000_000
}

pub struct Ladder {
    rungs: Vec<Setting>,
    reversible_end: usize,
    interval_end: usize,
    at: usize,
}

impl Ladder {
    pub closed spec fn rungs(&self) -> Seq<Setting> {
        self.rungs@
    }

    /// The place on the ladder.
    pub closed spec fn at(&self) -> int {
        self.at as int
    }

    /// Where the concurrency rungs begin.
    pub closed spec fn interval_end(&self) -> int {
        self.interval_end as int
    }

    /// Where the threshold rungs begin.
    pub closed spec fn reversible_end(&self) -> int {
        self.reversible_end as int
    }

    pub open spec fn wf(&self) -> bool {
        &&& 0 <= self.at() < self.rungs().len() <= usize::MAX
        &&& 1 <= self.interval_end() <= self.reversible_end() < self.rungs().len()
    }

    /// The rungs are the same and stand at the same places.
    pub open spec fn same_rungs(&self, other: &Ladder) -> bool {
        &&& self.rungs() == other.rungs()
        &&& self.interval_end() == other.interval_end()
        &&& self.reversible_end() == other.reversible_end()
    }

    /// The ladder that a configuration makes over a ring of a depth, at its base.
    pub fn new(cfg: &Gc, depth: usize) -> (ladder: Self)
        ensures
            ladder.wf(),
            ladder.at() == 0,
            ladder.interval_end() == interval_rungs(*cfg),
            ladder.reversible_end() == reversible_rungs(*cfg),
            ladder.rungs() == Seq::new(
                rung_count(*cfg, depth),
                |i: int| rung_at(*cfg, depth, i),
            ),
    {
        let ghost c = *cfg;
        let base_ns: u128 = interval(cfg.interval_ms);
        let min_ns: u128 = interval(cfg.min_interval_ms);
        let floor: u128 = if min_ns < base_ns {
            min_ns
        } else {
            base_ns
        };
        let base_width: usize = if cfg.concurrency < 1 {
            1
        } else {
            cfg.concurrency
        };
        let ceiling: usize = if cfg.max_concurrency < base_width {
            base_width
        } else {
            cfg.max_concurrency
        };
        let ghost halves = halvings(base_interval(c), floor_interval(c));
        let ghost doubles = doublings(base_concurrency(c), ceiling_concurrency(c));
        proof {
            lemma_halvings(base_interval(c), floor_interval(c));
            lemma_doublings(base_concurrency(c), ceiling_concurrency(c));
        }
        let mut rungs: Vec<Setting> = Vec::new();
        rungs.push(Setting { interval: base_ns, concurrency: base_width, threshold: Age::Miss });
        let mut ns: u128 = base_ns;
        while ns > floor
            invariant
                floor == floor_interval(c),
                0 < floor <= ns <= base_ns == base_interval(c),
                base_width == base_concurrency(c),
                halves == halvings(base_interval(c), floor_interval(c)),
                rungs@.len() >= 1,
                rungs@.len() <= halves.len() + 1,
                halvings(ns as nat, floor as nat) == halves.skip(rungs@.len() - 1),
                forall|i: int|
                    0 <= i < rungs@.len() ==> #[trigger] rungs@[i] == (Setting {
                        interval: (if i == 0 {
                            base_interval(c)
                        } else {
                            halves[i - 1]
                        }) as u128,
                        concurrency: base_width,
                        threshold: Age::Miss,
                    }),
            decreases ns,
        {
            let half: u128 = ns / 2;
            let next: u128 = if half < floor {
                floor
            } else {
                half
            };
            proof {
                let k = rungs@.len() - 1;
                let rest = halvings(next as nat, floor as nat);
                assert(halves.skip(k) == seq![next as nat] + rest);
                assert(halves[k] == halves.skip(k)[0]);
                assert(rest =~= halves.skip(k).skip(1));
                assert(halves.skip(k).skip(1) =~= halves.skip(k + 1));
            }
            rungs.push(
                Setting { interval: next, concurrency: base_width, threshold: Age::Miss },
            );
            ns = next;
        }
        assert(halves.skip(rungs@.len() - 1).len() == 0);
        let interval_end: usize = rungs.len();
        let ghost first = rungs@;
        let mut width: usize = base_width;
        while width < ceiling
            invariant
                floor == floor_interval(c),
                ceiling == ceiling_concurrency(c),
                0 < base_concurrency(c) <= width <= ceiling,
                doubles == doublings(base_concurrency(c), ceiling_concurrency(c)),
                interval_end == first.len() >= 1,
                interval_end <= rungs@.len() <= interval_end + doubles.len(),
                rungs@.take(interval_end as int) == first,
                doublings(width as nat, ceiling as nat) == doubles.skip(
                    rungs@.len() - interval_end,
                ),
                forall|i: int|
                    interval_end <= i < rungs@.len() ==> #[trigger] rungs@[i] == (Setting {
                        interval: floor,
                        concurrency: doubles[i - interval_end] as usize,
                        threshold: Age::Miss,
                    }),
            decreases ceiling - width,
        {
            let next: usize = if width > ceiling / 2 {
                ceiling
            } else {
                width * 2
            };
            proof {
                let k = rungs@.len() - interval_end;
                let rest = doublings(next as nat, ceiling as nat);
                assert(next == smaller(width as nat * 2, ceiling as nat));
                assert(doubles.skip(k) == seq![next as nat] + rest);
                assert(doubles[k] == doubles.skip(k)[0]);
                assert(rest =~= doubles.skip(k).skip(1));
                assert(doubles.skip(k).skip(1) =~= doubles.skip(k + 1));
            }
            rungs.push(Setting { interval: floor, concurrency: next, threshold: Age::Miss });
            width = next;
            assert(rungs@.take(interval_end as int) =~= first);
        }
        let reversible_end: usize = rungs.len();
        let ghost second = rungs@;
        proof {
            assert(doubles.skip(rungs@.len() - interval_end).len() == 0);
            assert(second.len() == reversible_rungs(c));
            assert forall|i: int| 0 <= i < second.len() implies second[i] == rung_at(
                c,
                depth,
                i,
            ) by {
                if i < interval_end {
                    assert(second.take(interval_end as int)[i] == first[i]);
                }
            }
        }
        let top: u16 = (depth % 0x1_0000) as u16;
        let mut window: u16 = top;
        let mut done: bool = false;
        while !done
            invariant
                top == deepest(depth),
                window <= top,
                second.len() == reversible_end == reversible_rungs(c),
                floor == floor_interval(c),
                ceiling == ceiling_concurrency(c),
                forall|i: int| 0 <= i < second.len() ==> second[i] == rung_at(c, depth, i),
                rungs@.len() == reversible_end + (top - window) + (if done {
                    1int
                } else {
                    0
                }),
                done ==> window == 0,
                rungs@.take(reversible_end as int) == second,
                forall|i: int|
                    reversible_end <= i < rungs@.len() ==> #[trigger] rungs@[i] == rung_at(
                        c,
                        depth,
                        i,
                    ),
            decreases window + (if done {
                0int
            } else {
                1
            }),
        {
            rungs.push(
                Setting {
                    interval: floor,
                    concurrency: ceiling,
                    threshold: Age::Window(window),
                },
            );
            assert(rungs@.take(reversible_end as int) =~= second);
            assert(rungs@.last() == rung_at(c, depth, rungs@.len() - 1));
            if window == 0 {
                done = true;
            } else {
                window = window - 1;
            }
        }
        proof {
            assert forall|i: int| 0 <= i < rungs@.len() implies rungs@[i] == rung_at(
                c,
                depth,
                i,
            ) by {
                if i < reversible_end {
                    assert(rungs@.take(reversible_end as int)[i] == second[i]);
                }
            }
            assert(rungs@ =~= Seq::new(rung_count(c, depth), |i: int| rung_at(c, depth, i)));
        }
        let count: usize = rungs.len();
        assert(count == rungs@.len());
        Ladder { rungs, reversible_end, interval_end, at: 0 }
    }

    pub fn current(&self) -> (setting: Setting)
        requires
            self.wf(),
        ensures
            setting == self.rungs()[self.at()],
    {
        self.rungs[self.at]
    }

    pub fn rung(&self) -> (rung: Rung)
        ensures
            rung == (if self.at() == 0 {
                Rung::Unpressured
            } else if self.at() < self.interval_end() {
                Rung::Interval
            } else if self.at() < self.reversible_end() {
                Rung::Concurrency
            } else {
                Rung::Threshold
            }),
    {
        if self.at == 0 {
            Rung::Unpressured
        } else if self.at < self.interval_end {
            Rung::Interval
        } else if self.at < self.reversible_end {
            Rung::Concurrency
        } else {
            Rung::Threshold
        }
    }

    /// A pass ended with its target unmet: one rung up.
    pub fn escalate(&mut self)
        requires
            old(self).wf(),
        ensures
            final(self).wf(),
            final(self).same_rungs(old(self)),
            final(self).at() == if old(self).at() + 1 < old(self).rungs().len() {
                old(self).at() + 1
            } else {
                old(self).at()
            },
    {
        if self.at < self.rungs.len() - 1 {
            self.at = self.at + 1;
        }
    }

    /// A pass met its target: the rung that was taken last goes back.
    pub fn relax(&mut self)
        requires
            old(self).wf(),
        ensures
            final(self).wf(),
            final(self).same_rungs(old(self)),
            final(self).at() == if old(self).at() > 0 {
                old(self).at() - 1
            } else {
                0
            },
    {
        if self.at > 0 {
            self.at = self.at - 1;
        }
    }

    /// There is no pressure at all: back to the base.
    pub fn reset(&mut self)
        requires
            old(self).wf(),
        ensures
            final(self).wf(),
            final(self).same_rungs(old(self)),
            final(self).at() == 0,
    {
        self.at = 0;
    }

    /// Usage climbs while a pass runs: the rungs that cost only work jump to their bounds.
    pub fn escalate_reversible(&mut self)
        requires
            old(self).wf(),
        ensures
            final(self).wf(),
            final(self).same_rungs(old(self)),
            final(self).at() == if old(self).at() < old(self).reversible_end() - 1 {
                old(self).reversible_end() - 1
            } else {
                old(self).at()
            },
    {
        if self.at < self.reversible_end - 1 {
            self.at = self.reversible_end - 1;
        }
    }

    /// Whether the ladder is at its top.
    pub fn clamped(&self) -> (top: bool)
        requires
            self.wf(),
        ensures
            top == (self.at() == self.rungs().len() - 1),
    {
        self.at == self.rungs.len() - 1
    }
}

// ---- laws -------------------------------------------------------------------------------------

/// Work is spent before the client: up the ladder the interval never lengthens, the passes never
/// narrow and the threshold never gets colder, and the threshold moves only once the interval is at
/// its floor and the concurrency at its ceiling.
pub proof fn escalation_spends_work_before_the_client(cfg: Gc, depth: usize, i: int, j: int)
    requires
        0 <= i <= j < rung_count(cfg, depth),
    ensures
        rung_at(cfg, depth, i).interval >= rung_at(cfg, depth, j).interval,
        rung_at(cfg, depth, i).concurrency <= rung_at(cfg, depth, j).concurrency,
        coldness(rung_at(cfg, depth, i).threshold) >= coldness(rung_at(cfg, depth, j).threshold),
        rung_at(cfg, depth, j).threshold != Age::Miss ==> rung_at(cfg, depth, j).interval
            == floor_interval(cfg) && rung_at(cfg, depth, j).concurrency == ceiling_concurrency(
            cfg,
        ),
{
    let halves = halvings(base_interval(cfg), floor_interval(cfg));
    let doubles = doublings(base_concurrency(cfg), ceiling_concurrency(cfg));
    lemma_halvings(base_interval(cfg), floor_interval(cfg));
    lemma_doublings(base_concurrency(cfg), ceiling_concurrency(cfg));
    if 0 < i < interval_rungs(cfg) {
        assert(floor_interval(cfg) <= halves[i - 1] < base_interval(cfg));
        if i < j < interval_rungs(cfg) {
            assert(halves[i - 1] > halves[j - 1]);
        }
    }
    if 0 < j < interval_rungs(cfg) {
        assert(floor_interval(cfg) <= halves[j - 1] < base_interval(cfg));
    }
    if interval_rungs(cfg) <= j < reversible_rungs(cfg) {
        assert(base_concurrency(cfg) < doubles[j - interval_rungs(cfg)] <= ceiling_concurrency(
            cfg,
        ));
        if interval_rungs(cfg) <= i < j {
            assert(doubles[i - interval_rungs(cfg)] < doubles[j - interval_rungs(cfg)]);
        }
    }
    if interval_rungs(cfg) <= i < reversible_rungs(cfg) {
        assert(base_concurrency(cfg) < doubles[i - interval_rungs(cfg)] <= ceiling_concurrency(
            cfg,
        ));
    }
}

/// The top of the ladder: the interval at its floor, the concurrency at its ceiling, and every key
/// cold enough.  The last rung before the threshold moves has both bounds, and still spares every
/// key that the ring remembers.
pub proof fn the_ladder_ends_at_its_bounds(cfg: Gc, depth: usize)
    ensures
        rung_at(cfg, depth, rung_count(cfg, depth) - 1) == (Setting {
            interval: floor_interval(cfg) as u128,
            concurrency: ceiling_concurrency(cfg) as usize,
            threshold: Age::Window(0),
        }),
        rung_at(cfg, depth, reversible_rungs(cfg) - 1) == (Setting {
            interval: floor_interval(cfg) as u128,
            concurrency: ceiling_concurrency(cfg) as usize,
            threshold: Age::Miss,
        }),
        rung_at(cfg, depth, 0) == (Setting {
            interval: base_interval(cfg) as u128,
            concurrency: base_concurrency(cfg) as usize,
            threshold: Age::Miss,
        }),
        forall|i: int|
            0 <= i < rung_count(cfg, depth) ==> #[trigger] rung_at(cfg, depth, i).interval > 0,
{
    let halves = halvings(base_interval(cfg), floor_interval(cfg));
    lemma_halvings(base_interval(cfg), floor_interval(cfg));
    lemma_doublings(base_concurrency(cfg), ceiling_concurrency(cfg));
    assert forall|i: int| 0 <= i < rung_count(cfg, depth) implies #[trigger] rung_at(
        cfg,
        depth,
        i,
    ).interval > 0 by {
        if 0 < i < interval_rungs(cfg) {
            assert(floor_interval(cfg) <= halves[i - 1] < base_interval(cfg));
        }
    }
}

/// The base and the bounds of the ladder are those of the configuration: at least a millisecond and at
/// least one at a time, the floor no higher than the base and the ceiling no lower.
pub proof fn the_bounds_are_those_configured(cfg: Gc)
    ensures
        cfg.interval_ms >= 1 ==> base_interval(cfg) == cfg.interval_ms * 1_000_000,
        cfg.interval_ms == 0 ==> base_interval(cfg) == 1_000_000,
        1 <= cfg.min_interval_ms <= cfg.interval_ms ==> floor_interval(cfg) == cfg.min_interval_ms
            * 1_000_000,
        cfg.min_interval_ms == 0 ==> floor_interval(cfg) == 1_000_000,
        cfg.min_interval_ms > cfg.interval_ms ==> floor_interval(cfg) == base_interval(cfg),
        cfg.concurrency >= 1 ==> base_concurrency(cfg) == cfg.concurrency,
        cfg.concurrency == 0 ==> base_concurrency(cfg) == 1,
        cfg.max_concurrency >= cfg.concurrency && cfg.max_concurrency >= 1 ==> ceiling_concurrency(cfg)
            == cfg.max_concurrency,
        cfg.max_concurrency < cfg.concurrency ==> ceiling_concurrency(cfg) == cfg.concurrency,
        ceiling_concurrency(cfg) >= base_concurrency(cfg) >= 1,
        0 < floor_interval(cfg) <= base_interval(cfg),
{
}

proof fn lemma_halves(from: nat, floor: nat, i: int)
    requires
        0 < floor <= from,
        0 <= i < halvings(from, floor).len(),
    ensures
        ({
            let prior = if i == 0 {
                from
            } else {
                halvings(from, floor)[i - 1]
            };
            halvings(from, floor)[i] == if prior / 2 < floor {
                floor
            } else {
                prior / 2
            }
        }),
    decreases from,
{
    let next = larger(from / 2, floor);
    if i > 0 {
        lemma_halves(next, floor, i - 1);
        assert(halvings(from, floor)[i] == halvings(next, floor)[i - 1]);
        if i > 1 {
            assert(halvings(from, floor)[i - 1] == halvings(next, floor)[i - 2]);
        }
    }
}

proof fn lemma_doubles(from: nat, ceiling: nat, i: int)
    requires
        0 < from <= ceiling,
        0 <= i < doublings(from, ceiling).len(),
    ensures
        ({
            let prior = if i == 0 {
                from
            } else {
                doublings(from, ceiling)[i - 1]
            };
            doublings(from, ceiling)[i] == if prior * 2 > ceiling {
                ceiling
            } else {
                prior * 2
            }
        }),
    decreases ceiling - from,
{
    let next = smaller(from * 2, ceiling);
    if i > 0 {
        lemma_doubles(next, ceiling, i - 1);
        assert(doublings(from, ceiling)[i] == doublings(next, ceiling)[i - 1]);
        if i > 1 {
            assert(doublings(from, ceiling)[i - 1] == doublings(next, ceiling)[i - 2]);
        }
    }
}

/// Each rung is a step of one kind from the one before it: the interval is halved, down to its floor,
/// then the concurrency is doubled, up to its ceiling, and then the threshold comes down by a window,
/// from the deepest that the ring has.
pub proof fn each_rung_is_one_step(cfg: Gc, depth: usize, i: int)
    requires
        0 <= i,
        i + 1 < rung_count(cfg, depth),
        depth < 0x1_0000,
    ensures
        ({
            let (a, b) = (rung_at(cfg, depth, i), rung_at(cfg, depth, i + 1));
            if a.interval > floor_interval(cfg) {
                &&& b.interval == if a.interval / 2 < floor_interval(cfg) {
                    floor_interval(cfg)
                } else {
                    (a.interval / 2) as nat
                }
                &&& b.concurrency == a.concurrency
                &&& b.threshold == a.threshold
            } else if a.concurrency < ceiling_concurrency(cfg) {
                &&& b.interval == a.interval
                &&& b.concurrency == if a.concurrency * 2 > ceiling_concurrency(cfg) {
                    ceiling_concurrency(cfg) as int
                } else {
                    a.concurrency * 2
                }
                &&& b.threshold == a.threshold
            } else {
                &&& b.interval == a.interval
                &&& b.concurrency == a.concurrency
                &&& b.threshold == match a.threshold {
                    Age::Miss => Age::Window(depth as u16),
                    Age::Window(w) => Age::Window((w - 1) as u16),
                }
            }
        }),
{
    let halves = halvings(base_interval(cfg), floor_interval(cfg));
    let doubles = doublings(base_concurrency(cfg), ceiling_concurrency(cfg));
    the_bounds_are_those_configured(cfg);
    lemma_halvings(base_interval(cfg), floor_interval(cfg));
    lemma_doublings(base_concurrency(cfg), ceiling_concurrency(cfg));
    if i < halves.len() {
        lemma_halves(base_interval(cfg), floor_interval(cfg), i);
        if i > 0 {
            assert(halves[i - 1] > halves[i]);
        }
    } else {
        if i > 0 && i == halves.len() {
            assert(halves[i - 1] == floor_interval(cfg));
        }
        let k = i - halves.len();
        if k < doubles.len() {
            lemma_doubles(base_concurrency(cfg), ceiling_concurrency(cfg), k);
            if k > 0 {
                assert(doubles[k - 1] < doubles[k]);
            }
        } else if k > 0 && k == doubles.len() {
            assert(doubles[k - 1] == ceiling_concurrency(cfg));
        }
    }
}

} // verus!
