//! The run of the service: it accepts until it is told to stop, and then ends in three phases.
//!
//! First the connections are drained, after which no handler runs.  Then the obligations are settled
//! and the run is sealed, which only a complete drain permits: what a connection may still do cannot be
//! vouched for.  Then every other actor is let finish.  A phase that overruns its budget is cut short.

use vstd::prelude::*;

verus! {

/// The budget of the connection drain, in milliseconds.
pub const CONNECTION_DRAIN_MS: u64 = 15_000;

/// The budget for settling obligations, in milliseconds.
pub const OBLIGATION_DRAIN_MS: u64 = 10_000;

/// The budget for the other actors, in milliseconds.
pub const ACTOR_QUIESCE_MS: u64 = 10_000;

/// The shortest wait after a failed accept, in milliseconds.
pub const ACCEPT_RETRY_MIN_MS: u64 = 10;

/// The longest one.
pub const ACCEPT_RETRY_MAX_MS: u64 = 1_000;

/// Where a run stands.
#[derive(Clone, Copy, Debug, PartialEq, Eq, Structural)]
pub enum Phase {
    Accepting,
    /// An accept failed, and the next one waits.
    BackingOff,
    DrainingConnections,
    Settling,
    Quiescing,
    Ended,
    /// An invariant is violated: the run waits for the process to exit, and never ends well.
    Halted,
}

/// What happens to a run.
#[derive(Clone, Copy, Debug, PartialEq, Eq, Structural)]
pub enum ServeEvent {
    /// An invariant was violated.
    Halt,
    /// The process is to stop.
    Shutdown,
    Accepted,
    AcceptFailed,
    BackoffElapsed,
    ConnectionEnded,
    /// Every connection has ended.
    ConnectionsDrained,
    /// The drain failed, or overran its budget.
    DrainFailed,
    /// Every obligation is settled, or the attempt overran its budget.
    Settled,
    /// Every actor has ended, or the wait for them overran its budget.
    Quiesced,
}

/// What a run does next.
#[derive(Clone, Copy, Debug, PartialEq, Eq, Structural)]
pub enum ServeAction {
    /// Wait for the next event.
    Wait,
    /// Serve the connection that was accepted.
    ServeConnection,
    /// Accept again after so many milliseconds.
    RetryAccept(u64),
    Accept,
    /// Report that the process is stopping, close the listener and drain the connections.
    DrainConnections,
    /// Report that the process is stopping, close the listener, tell the connections and wait for the
    /// exit.
    AwaitExit,
    /// Join the connections, seal the run and settle what it owes.
    Seal,
    /// Cut off the connections that are left, and let the actors finish: nothing is sealed.
    AbortAndQuiesce,
    /// Let the actors finish.
    Quiesce,
    Return,
}

/// A run: its phase, and the wait after the next failed accept.
#[derive(Clone, Copy, Debug, PartialEq, Eq, Structural)]
pub struct ServeState {
    pub phase: Phase,
    pub backoff_ms: u64,
}

/// The wait after the one that was just waited.
pub open spec fn longer(backoff_ms: u64) -> u64 {
    if backoff_ms >= ACCEPT_RETRY_MAX_MS / 2 {
        ACCEPT_RETRY_MAX_MS
    } else {
        (2 * backoff_ms) as u64
    }
}

/// A run after an event, and what it does then.  An event that does not belong to the phase changes
/// nothing.
pub open spec fn served(s: ServeState, event: ServeEvent) -> (ServeState, ServeAction) {
    match (s.phase, event) {
        (Phase::Ended, _) => (s, ServeAction::Return),
        (Phase::Halted, _) => (s, ServeAction::Wait),
        (_, ServeEvent::Halt) => (
            ServeState { phase: Phase::Halted, ..s },
            ServeAction::AwaitExit,
        ),
        (Phase::Accepting, ServeEvent::Shutdown) => (
            ServeState { phase: Phase::DrainingConnections, ..s },
            ServeAction::DrainConnections,
        ),
        (Phase::Accepting, ServeEvent::Accepted) => (
            ServeState { backoff_ms: ACCEPT_RETRY_MIN_MS, ..s },
            ServeAction::ServeConnection,
        ),
        (Phase::Accepting, ServeEvent::AcceptFailed) => (
            ServeState { phase: Phase::BackingOff, ..s },
            ServeAction::RetryAccept(s.backoff_ms),
        ),
        (Phase::BackingOff, ServeEvent::Shutdown) => (
            ServeState { phase: Phase::DrainingConnections, ..s },
            ServeAction::DrainConnections,
        ),
        (Phase::BackingOff, ServeEvent::BackoffElapsed) => (
            ServeState { phase: Phase::Accepting, backoff_ms: longer(s.backoff_ms) },
            ServeAction::Accept,
        ),
        (Phase::DrainingConnections, ServeEvent::ConnectionsDrained) => (
            ServeState { phase: Phase::Settling, ..s },
            ServeAction::Seal,
        ),
        (Phase::DrainingConnections, ServeEvent::DrainFailed) => (
            ServeState { phase: Phase::Quiescing, ..s },
            ServeAction::AbortAndQuiesce,
        ),
        (Phase::Settling, ServeEvent::Settled) => (
            ServeState { phase: Phase::Quiescing, ..s },
            ServeAction::Quiesce,
        ),
        (Phase::Quiescing, ServeEvent::Quiesced) => (
            ServeState { phase: Phase::Ended, ..s },
            ServeAction::Return,
        ),
        _ => (s, ServeAction::Wait),
    }
}

impl ServeState {
    pub fn new() -> (state: Self)
        ensures
            state.phase == Phase::Accepting,
            state.backoff_ms == ACCEPT_RETRY_MIN_MS,
    {
        ServeState { phase: Phase::Accepting, backoff_ms: ACCEPT_RETRY_MIN_MS }
    }

    /// Takes an event in, and says what to do.
    pub fn serve(&mut self, event: ServeEvent) -> (action: ServeAction)
        ensures
            (*final(self), action) == served(*old(self), event),
    {
        match (self.phase, event) {
            (Phase::Ended, _) => ServeAction::Return,
            (Phase::Halted, _) => ServeAction::Wait,
            (_, ServeEvent::Halt) => {
                self.phase = Phase::Halted;
                ServeAction::AwaitExit
            },
            (Phase::Accepting, ServeEvent::Shutdown) => {
                self.phase = Phase::DrainingConnections;
                ServeAction::DrainConnections
            },
            (Phase::Accepting, ServeEvent::Accepted) => {
                self.backoff_ms = ACCEPT_RETRY_MIN_MS;
                ServeAction::ServeConnection
            },
            (Phase::Accepting, ServeEvent::AcceptFailed) => {
                self.phase = Phase::BackingOff;
                ServeAction::RetryAccept(self.backoff_ms)
            },
            (Phase::BackingOff, ServeEvent::Shutdown) => {
                self.phase = Phase::DrainingConnections;
                ServeAction::DrainConnections
            },
            (Phase::BackingOff, ServeEvent::BackoffElapsed) => {
                self.phase = Phase::Accepting;
                self.backoff_ms = if self.backoff_ms >= ACCEPT_RETRY_MAX_MS / 2 {
                    ACCEPT_RETRY_MAX_MS
                } else {
                    2 * self.backoff_ms
                };
                ServeAction::Accept
            },
            (Phase::DrainingConnections, ServeEvent::ConnectionsDrained) => {
                self.phase = Phase::Settling;
                ServeAction::Seal
            },
            (Phase::DrainingConnections, ServeEvent::DrainFailed) => {
                self.phase = Phase::Quiescing;
                ServeAction::AbortAndQuiesce
            },
            (Phase::Settling, ServeEvent::Settled) => {
                self.phase = Phase::Quiescing;
                ServeAction::Quiesce
            },
            (Phase::Quiescing, ServeEvent::Quiesced) => {
                self.phase = Phase::Ended;
                ServeAction::Return
            },
            _ => ServeAction::Wait,
        }
    }
}

// ---- laws -------------------------------------------------------------------------------------

/// A run after some events.
pub open spec fn after_events(s: ServeState, events: Seq<ServeEvent>) -> ServeState
    decreases events.len(),
{
    if events.len() == 0 {
        s
    } else {
        served(after_events(s, events.drop_last()), events.last()).0
    }
}

/// How far a run has come.
pub open spec fn progress(phase: Phase) -> int {
    match phase {
        Phase::Accepting => 0,
        Phase::BackingOff => 0,
        Phase::DrainingConnections => 1,
        Phase::Settling => 2,
        Phase::Quiescing => 3,
        Phase::Ended => 4,
        Phase::Halted => 5,
    }
}

/// The phases come in their order, and none comes back.
pub proof fn phases_only_advance(s: ServeState, event: ServeEvent)
    ensures
        progress(s.phase) <= progress(served(s, event).0.phase),
{
}

/// A run is sealed only where every connection was drained: then all that it will ever owe is known.
pub proof fn only_a_drained_run_is_sealed(s: ServeState, event: ServeEvent)
    requires
        served(s, event).1 == ServeAction::Seal,
    ensures
        s.phase == Phase::DrainingConnections,
        event == ServeEvent::ConnectionsDrained,
{
}

/// A halted run never returns: to return would end the process well, and lose the record.
pub proof fn a_halted_run_never_returns(s: ServeState, events: Seq<ServeEvent>)
    requires
        s.phase == Phase::Halted,
    ensures
        after_events(s, events).phase == Phase::Halted,
        events.len() > 0 ==> served(after_events(s, events.drop_last()), events.last()).1
            == ServeAction::Wait,
    decreases events.len(),
{
    if events.len() > 0 {
        a_halted_run_never_returns(s, events.drop_last());
    }
}

/// The wait after a failed accept is never longer than the longest, and never shorter than the
/// shortest, whatever happens.
pub proof fn accepts_are_retried_soon(s: ServeState, events: Seq<ServeEvent>)
    requires
        ACCEPT_RETRY_MIN_MS <= s.backoff_ms <= ACCEPT_RETRY_MAX_MS,
    ensures
        ACCEPT_RETRY_MIN_MS <= after_events(s, events).backoff_ms <= ACCEPT_RETRY_MAX_MS,
    decreases events.len(),
{
    if events.len() > 0 {
        accepts_are_retried_soon(s, events.drop_last());
    }
}

/// A run that still accepts serves what it accepts, waits before it tries again where accepting failed,
/// and stops accepting at the shutdown; a halt overrides all of it.
pub proof fn an_accepting_run_goes_on_until_it_is_told(s: ServeState)
    requires
        s.phase == Phase::Accepting,
    ensures
        served(s, ServeEvent::Accepted).1 == ServeAction::ServeConnection,
        served(s, ServeEvent::Accepted).0.phase == Phase::Accepting,
        served(s, ServeEvent::Accepted).0.backoff_ms == 10,
        served(s, ServeEvent::AcceptFailed).1 == ServeAction::RetryAccept(s.backoff_ms),
        served(s, ServeEvent::AcceptFailed).0.phase == Phase::BackingOff,
        served(s, ServeEvent::AcceptFailed).0.backoff_ms == s.backoff_ms,
        served(s, ServeEvent::Shutdown).1 == ServeAction::DrainConnections,
        served(s, ServeEvent::Shutdown).0.phase == Phase::DrainingConnections,
        served(s, ServeEvent::Halt).1 == ServeAction::AwaitExit,
        served(s, ServeEvent::Halt).0.phase == Phase::Halted,
{
}

/// A run that backs off accepts again when the wait is over, and the next wait is twice as long, up to
/// the longest.
pub proof fn a_failed_accept_is_tried_again(s: ServeState)
    requires
        s.phase == Phase::BackingOff,
    ensures
        served(s, ServeEvent::BackoffElapsed).1 == ServeAction::Accept,
        served(s, ServeEvent::BackoffElapsed).0.phase == Phase::Accepting,
        2 * s.backoff_ms <= 1_000 ==> served(
            s,
            ServeEvent::BackoffElapsed,
        ).0.backoff_ms == 2 * s.backoff_ms,
        2 * s.backoff_ms > 1_000 ==> served(
            s,
            ServeEvent::BackoffElapsed,
        ).0.backoff_ms == 1_000,
        served(s, ServeEvent::Shutdown).1 == ServeAction::DrainConnections,
        served(s, ServeEvent::Shutdown).0.phase == Phase::DrainingConnections,
        served(s, ServeEvent::Halt).1 == ServeAction::AwaitExit,
        served(s, ServeEvent::Halt).0.phase == Phase::Halted,
{
}

/// A shutdown drains the connections, then seals and settles the queues, then quiesces, then returns; one
/// that cannot drain is not sealed.  A halt overrides every step of it, and what is not due changes
/// nothing.
pub proof fn a_shutdown_goes_through_its_steps(s: ServeState, event: ServeEvent)
    ensures
        s.phase == Phase::DrainingConnections && event == ServeEvent::ConnectionsDrained ==> served(
            s,
            event,
        ).1 == ServeAction::Seal && served(s, event).0.phase == Phase::Settling,
        s.phase == Phase::DrainingConnections && event == ServeEvent::DrainFailed ==> served(
            s,
            event,
        ).1 == ServeAction::AbortAndQuiesce && served(s, event).0.phase == Phase::Quiescing,
        s.phase == Phase::Settling && event == ServeEvent::Settled ==> served(s, event).1
            == ServeAction::Quiesce && served(s, event).0.phase == Phase::Quiescing,
        s.phase == Phase::Quiescing && event == ServeEvent::Quiesced ==> served(s, event).1
            == ServeAction::Return && served(s, event).0.phase == Phase::Ended,
        s.phase != Phase::Ended && s.phase != Phase::Halted && event == ServeEvent::Halt ==> served(
            s,
            event,
        ).1 == ServeAction::AwaitExit && served(s, event).0.phase == Phase::Halted,
        s.phase == Phase::Ended ==> served(s, event) == (s, ServeAction::Return),
        served(s, event).1 == ServeAction::Wait ==> served(s, event).0 == s,
        event == ServeEvent::ConnectionEnded && s.phase != Phase::Ended ==> served(s, event)
            == (s, ServeAction::Wait),
{
}

} // verus!
