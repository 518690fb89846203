//! Admission of cached writes by the set of writes that the remote is still owed.
//!
//! One counter of pending markers and the age of the oldest.  A write that finds either over its
//! threshold is refused at once: the pacing is the client's own retry.

use vstd::prelude::*;

verus! {

/// Thresholds of the pending set; zero switches one off.
#[derive(Clone, Copy, Debug, PartialEq, Eq, Structural)]
pub struct Backpressure {
    pub max_pending: usize,
    pub max_age_ms: u64,
}

/// Whether any threshold is on.
pub open spec fn is_enabled(limits: Backpressure) -> bool {
    limits.max_pending > 0 || limits.max_age_ms > 0
}

/// Whether the pending set is over a threshold.
pub open spec fn is_pressured(limits: Backpressure, pending: nat, oldest_age_ms: nat) -> bool {
    ||| limits.max_pending > 0 && pending > limits.max_pending
    ||| limits.max_age_ms > 0 && oldest_age_ms > limits.max_age_ms
}

#[derive(Clone, Copy, Debug)]
pub struct Pressure {
    limits: Backpressure,
    pending: usize,
    oldest_age_ms: u64,
}

impl Pressure {
    pub closed spec fn limits(&self) -> Backpressure {
        self.limits
    }

    pub closed spec fn pending(&self) -> nat {
        self.pending as nat
    }

    pub closed spec fn oldest_age_ms(&self) -> nat {
        self.oldest_age_ms as nat
    }

    pub fn new(cfg: &Backpressure) -> (pressure: Self)
        ensures
            pressure.limits() == *cfg,
            pressure.pending() == 0,
            pressure.oldest_age_ms() == 0,
    {
        Pressure { limits: *cfg, pending: 0, oldest_age_ms: 0 }
    }

    pub fn enabled(&self) -> (enabled: bool)
        ensures
            enabled == is_enabled(self.limits()),
    {
        self.limits.max_pending > 0 || self.limits.max_age_ms > 0
    }

    /// A cached write raised a marker for a key that had none.
    pub fn raised(&mut self)
        ensures
            final(self).limits() == old(self).limits(),
            final(self).oldest_age_ms() == old(self).oldest_age_ms(),
            final(self).pending() == if !is_enabled(old(self).limits()) {
                old(self).pending()
            } else if old(self).pending() < usize::MAX {
                old(self).pending() + 1
            } else {
                0
            },
    {
        if self.enabled() {
            self.pending = self.pending.wrapping_add(1);
        }
    }

    /// A marker was in fact removed.
    pub fn cleared(&mut self)
        ensures
            final(self).limits() == old(self).limits(),
            final(self).oldest_age_ms() == old(self).oldest_age_ms(),
            final(self).pending() == if is_enabled(old(self).limits()) && old(self).pending() > 0 {
                (old(self).pending() - 1) as nat
            } else {
                old(self).pending()
            },
    {
        if self.enabled() && self.pending > 0 {
            self.pending = self.pending - 1;
        }
    }

    /// Markers went with the projection that held them.
    pub fn drained(&mut self, n: usize)
        ensures
            final(self).limits() == old(self).limits(),
            final(self).oldest_age_ms() == old(self).oldest_age_ms(),
            final(self).pending() == if !is_enabled(old(self).limits()) {
                old(self).pending()
            } else if old(self).pending() > n {
                (old(self).pending() - n) as nat
            } else {
                0
            },
    {
        if self.enabled() {
            self.pending = if self.pending > n {
                self.pending - n
            } else {
                0
            };
        }
    }

    /// A census of the whole set.
    pub fn publish(&mut self, pending: usize, oldest_age_ms: u64)
        ensures
            final(self).limits() == old(self).limits(),
            is_enabled(old(self).limits()) ==> final(self).pending() == pending
                && final(self).oldest_age_ms() == oldest_age_ms,
            !is_enabled(old(self).limits()) ==> *final(self) == *old(self),
    {
        if self.enabled() {
            self.pending = pending;
            self.oldest_age_ms = oldest_age_ms;
        }
    }

    /// The age of the oldest marker, as a pass saw it.  The count is left alone: it is kept exactly,
    /// and what the pass saw at its start would bring back markers that it has cleared.
    pub fn publish_age(&mut self, oldest_age_ms: u64)
        ensures
            final(self).limits() == old(self).limits(),
            final(self).pending() == old(self).pending(),
            final(self).oldest_age_ms() == if is_enabled(old(self).limits()) {
                oldest_age_ms as nat
            } else {
                old(self).oldest_age_ms()
            },
    {
        if self.enabled() {
            self.oldest_age_ms = oldest_age_ms;
        }
    }

    /// Whether a write may go on.
    pub fn admits(&self) -> (admitted: bool)
        ensures
            admitted == !is_pressured(self.limits(), self.pending(), self.oldest_age_ms()),
    {
        let over: bool = self.limits.max_pending > 0 && self.pending > self.limits.max_pending;
        let stale: bool = self.limits.max_age_ms > 0 && self.oldest_age_ms > self.limits.max_age_ms;
        !over && !stale
    }
}

// ---- laws -------------------------------------------------------------------------------------

/// With no threshold on, everything is admitted under any count and age.
pub proof fn no_threshold_admits_everything(limits: Backpressure, pending: nat, oldest_age_ms: nat)
    requires
        !is_enabled(limits),
    ensures
        !is_pressured(limits, pending, oldest_age_ms),
{
}

/// A set at its threshold is not over it, fewer and younger markers never make it so, and by count
/// alone exactly the markers above the threshold have to go before writes are admitted again.
pub proof fn draining_reopens_admission(
    limits: Backpressure,
    pending: nat,
    oldest_age_ms: nat,
    fewer: nat,
    younger: nat,
)
    requires
        fewer <= pending,
        younger <= oldest_age_ms,
    ensures
        !is_pressured(limits, pending, oldest_age_ms) ==> !is_pressured(limits, fewer, younger),
        !is_pressured(limits, limits.max_pending as nat, limits.max_age_ms as nat),
        limits.max_pending > 0 ==> is_pressured(limits, limits.max_pending as nat + 1, younger),
{
}

/// Admission stops exactly beyond a limit that is set: more markers than allowed, or one older than
/// allowed, each on its own; a limit of zero is none.
pub proof fn each_limit_stops_admission_on_its_own(
    limits: Backpressure,
    pending: nat,
    oldest_age_ms: nat,
)
    ensures
        limits.max_pending > 0 && pending > limits.max_pending ==> is_pressured(
            limits,
            pending,
            oldest_age_ms,
        ),
        limits.max_age_ms > 0 && oldest_age_ms > limits.max_age_ms ==> is_pressured(
            limits,
            pending,
            oldest_age_ms,
        ),
        (limits.max_pending == 0 || pending <= limits.max_pending) && (limits.max_age_ms == 0
            || oldest_age_ms <= limits.max_age_ms) ==> !is_pressured(limits, pending, oldest_age_ms),
        is_enabled(limits) <==> exists|n: nat, age: nat| is_pressured(limits, n, age),
{
    if limits.max_pending > 0 {
        assert(is_pressured(limits, (limits.max_pending + 1) as nat, 0));
    } else if limits.max_age_ms > 0 {
        assert(is_pressured(limits, 0, (limits.max_age_ms + 1) as nat));
    }
}

} // verus!
