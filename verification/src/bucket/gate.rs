//! A bucket's gate: its lifecycle and both in-flight counts in one 64-bit word, so that a decision
//! is made by a transition of the word and never by a second look at it.
//!
//! ```text
//! [ ready:1 | closed:1 | epoch:30 | readers:16 | writers:16 ]
//! ```
//!
//! The epoch moves on every write admission, so that a write that starts and finishes inside a
//! delete's emptiness listing still defeats the close.  Readers do not count against a close.
//! Counts refuse at their limit instead of carrying into a neighbour.

use vstd::prelude::*;

verus! {

/// The whole of a bucket's visible state.  A bucket without a gate is absent.
#[derive(Clone, Copy, Debug, PartialEq, Eq, Structural)]
pub enum BucketStatus {
    /// Deleted, or never known.
    Absent,
    /// A delete is between its emptiness check and its commit.
    Deleting,
    Restoring,
    Ready,
}

/// What a write may do.
#[derive(Clone, Copy, Debug, PartialEq, Eq, Structural)]
pub enum Admission {
    /// The bucket is ready, and no restoring read is in flight.
    CachedEligible,
    /// The write must commit on the remote first.
    Durable,
}

/// Why the bucket gate refused an operation.
#[derive(Clone, Copy, Debug, PartialEq, Eq, Structural)]
pub enum Refusal {
    /// No gate, so no bucket.
    Absent,
    /// A delete is in flight, which may still fail.
    Closed,
}

/// Where a read must go for its answer.
#[derive(Debug, PartialEq, Eq)]
pub enum Readout {
    Cache,
    /// To the remote, under a ticket that is held for the whole answer.
    Remote(ReadGuard),
}

/// The fields of a gate's word.
#[derive(Clone, Copy, Debug, PartialEq, Eq, Structural)]
pub struct GateFields {
    pub ready: bool,
    pub closed: bool,
    pub epoch: u32,
    pub readers: u32,
    pub writers: u32,
}

pub const EPOCHS: u32 = 0x4000_0000;

pub const COUNT_LIMIT: u32 = 0xffff;

impl GateFields {
    pub open spec fn wf(self) -> bool {
        self.epoch < EPOCHS && self.readers <= COUNT_LIMIT && self.writers <= COUNT_LIMIT
    }

    /// The word that holds the fields.
    pub open spec fn word(self) -> nat {
        (if self.ready {
            0x8000_0000_0000_0000nat
        } else {
            0
        }) + (if self.closed {
            0x4000_0000_0000_0000nat
        } else {
            0
        }) + self.epoch as nat * 0x1_0000_0000 + self.readers as nat * 0x1_0000
            + self.writers as nat
    }

    /// What a delete's close compares: everything but the readers.
    pub open spec fn without_readers(self) -> GateFields {
        GateFields { readers: 0, ..self }
    }
}

/// The fields that a word holds.
pub open spec fn fields_of(word: u64) -> GateFields {
    GateFields {
        ready: word >= 0x8000_0000_0000_0000,
        closed: word % 0x8000_0000_0000_0000 >= 0x4000_0000_0000_0000,
        epoch: (word / 0x1_0000_0000 % 0x4000_0000) as u32,
        readers: (word / 0x1_0000 % 0x1_0000) as u32,
        writers: (word % 0x1_0000) as u32,
    }
}

/// Every word holds fields in their ranges, and is the word that holds them.
pub proof fn word_holds_its_fields(word: u64)
    ensures
        fields_of(word).wf(),
        fields_of(word).word() == word,
{
}

/// Fields in their ranges are what their word holds.
pub proof fn fields_survive_their_word(f: GateFields)
    requires
        f.wf(),
    ensures
        f.word() <= u64::MAX,
        fields_of(f.word() as u64) == f,
{
    let w = f.word() as u64;
    assert(w == f.word());
    let low = f.readers as nat * 0x1_0000 + f.writers as nat;
    assert(low < 0x1_0000_0000);
    let mid = f.epoch as nat * 0x1_0000_0000 + low;
    assert(mid < 0x4000_0000_0000_0000);
    assert(w % 0x1_0000 == f.writers);
    assert(w / 0x1_0000 % 0x1_0000 == f.readers);
    assert(w / 0x1_0000_0000 % 0x4000_0000 == f.epoch);
}

/// The fields of a word.
pub fn unpack_word(word: u64) -> (fields: GateFields)
    ensures
        fields == fields_of(word),
{
    GateFields {
        ready: word >= 0x8000_0000_0000_0000,
        closed: word % 0x8000_0000_0000_0000 >= 0x4000_0000_0000_0000,
        epoch: (word / 0x1_0000_0000 % 0x4000_0000) as u32,
        readers: (word / 0x1_0000 % 0x1_0000) as u32,
        writers: (word % 0x1_0000) as u32,
    }
}

/// The word of some fields.
pub fn pack_word(fields: GateFields) -> (word: u64)
    requires
        fields.wf(),
    ensures
        word == fields.word(),
        fields_of(word) == fields,
{
    proof {
        fields_survive_their_word(fields);
    }
    let high: u64 = (if fields.ready {
        0x8000_0000_0000_0000
    } else {
        0
    }) + (if fields.closed {
        0x4000_0000_0000_0000
    } else {
        0
    });
    high + fields.epoch as u64 * 0x1_0000_0000 + fields.readers as u64 * 0x1_0000
        + fields.writers as u64
}

// ---- the transition table ---------------------------------------------------------------------

/// One write more, under a new epoch.  Refused where the bucket gate is closed or the count is full.
pub open spec fn write_admitted(f: GateFields) -> Option<GateFields> {
    if !f.closed && f.writers < COUNT_LIMIT {
        Some(
            GateFields {
                epoch: ((f.epoch + 1) % EPOCHS as int) as u32,
                writers: (f.writers + 1) as u32,
                ..f
            },
        )
    } else {
        None
    }
}

/// One restoring read more.  Refused where the bucket gate is ready or closed, or the count is full.
pub open spec fn ticket_taken(f: GateFields) -> Option<GateFields> {
    if !f.ready && !f.closed && f.readers < COUNT_LIMIT {
        Some(GateFields { readers: (f.readers + 1) as u32, ..f })
    } else {
        None
    }
}

/// The end of a restore.  Refused where the bucket gate is ready or closed.
pub open spec fn made_ready(f: GateFields) -> Option<GateFields> {
    if !f.ready && !f.closed {
        Some(GateFields { ready: true, ..f })
    } else {
        None
    }
}

/// The close of a delete that saw `observed`.  Refused where anything but the readers has changed.
pub open spec fn closed_from(observed: GateFields, f: GateFields) -> Option<GateFields> {
    if f.without_readers() == observed.without_readers() {
        Some(GateFields { closed: true, ..f })
    } else {
        None
    }
}

/// What a write that finds these fields may do.
pub open spec fn admission_at(f: GateFields) -> Admission {
    if f.ready && f.readers == 0 {
        Admission::CachedEligible
    } else {
        Admission::Durable
    }
}

/// What a delete must find before its listing: nothing is closing or writing.
pub open spec fn is_quiescent(f: GateFields) -> bool {
    !f.closed && f.writers == 0
}

pub open spec fn status_at(f: GateFields) -> BucketStatus {
    if f.closed {
        BucketStatus::Deleting
    } else if f.ready {
        BucketStatus::Ready
    } else {
        BucketStatus::Restoring
    }
}

/// The word that a row of the table leads to, or the refusal.
pub open spec fn leads_to(next: Option<u64>, fields: Option<GateFields>) -> bool {
    match (next, fields) {
        (Some(word), Some(f)) => fields_of(word) == f && word == f.word(),
        (None, None) => true,
        _ => false,
    }
}

/// Admits a write.
pub fn admit_write(word: u64) -> (next: Option<u64>)
    ensures
        leads_to(next, write_admitted(fields_of(word))),
{
    let f: GateFields = unpack_word(word);
    proof {
        word_holds_its_fields(word);
    }
    if f.closed || f.writers >= COUNT_LIMIT {
        return None;
    }
    let epoch: u32 = if f.epoch + 1 == EPOCHS {
        0
    } else {
        f.epoch + 1
    };
    Some(
        pack_word(
            GateFields {
                ready: f.ready,
                closed: f.closed,
                epoch,
                readers: f.readers,
                writers: f.writers + 1,
            },
        ),
    )
}

/// Hands out a ticket to a restoring read.
pub fn take_ticket(word: u64) -> (next: Option<u64>)
    ensures
        leads_to(next, ticket_taken(fields_of(word))),
{
    let f: GateFields = unpack_word(word);
    proof {
        word_holds_its_fields(word);
    }
    if f.ready || f.closed || f.readers >= COUNT_LIMIT {
        return None;
    }
    Some(
        pack_word(
            GateFields {
                ready: f.ready,
                closed: f.closed,
                epoch: f.epoch,
                readers: f.readers + 1,
                writers: f.writers,
            },
        ),
    )
}

/// Ends a restore.
pub fn set_ready(word: u64) -> (next: Option<u64>)
    ensures
        leads_to(next, made_ready(fields_of(word))),
{
    let f: GateFields = unpack_word(word);
    proof {
        word_holds_its_fields(word);
    }
    if f.ready || f.closed {
        return None;
    }
    Some(
        pack_word(
            GateFields {
                ready: true,
                closed: f.closed,
                epoch: f.epoch,
                readers: f.readers,
                writers: f.writers,
            },
        ),
    )
}

/// Closes the bucket gate for a delete that saw `observed`.
pub fn set_closed(observed: u64, word: u64) -> (next: Option<u64>)
    ensures
        leads_to(next, closed_from(fields_of(observed), fields_of(word))),
{
    let o: GateFields = unpack_word(observed);
    let f: GateFields = unpack_word(word);
    proof {
        word_holds_its_fields(word);
    }
    if f.ready != o.ready || f.closed != o.closed || f.epoch != o.epoch || f.writers != o.writers {
        return None;
    }
    Some(
        pack_word(
            GateFields {
                ready: f.ready,
                closed: true,
                epoch: f.epoch,
                readers: f.readers,
                writers: f.writers,
            },
        ),
    )
}

/// Gives a write's claim back.
pub fn leave_write(word: u64) -> (next: u64)
    requires
        fields_of(word).writers > 0,
    ensures
        fields_of(next) == (GateFields {
            writers: (fields_of(word).writers - 1) as u32,
            ..fields_of(word)
        }),
{
    proof {
        word_holds_its_fields(word);
        fields_survive_their_word(
            GateFields { writers: (fields_of(word).writers - 1) as u32, ..fields_of(word) },
        );
    }
    word - 1
}

/// Gives a read's ticket back.
pub fn drop_ticket(word: u64) -> (next: u64)
    requires
        fields_of(word).readers > 0,
    ensures
        fields_of(next) == (GateFields {
            readers: (fields_of(word).readers - 1) as u32,
            ..fields_of(word)
        }),
{
    proof {
        word_holds_its_fields(word);
        fields_survive_their_word(
            GateFields { readers: (fields_of(word).readers - 1) as u32, ..fields_of(word) },
        );
    }
    word - 0x1_0000
}

/// Opens the bucket gate again after a close that was not committed.
pub fn reopen(word: u64) -> (next: u64)
    ensures
        fields_of(next) == (GateFields { closed: false, ..fields_of(word) }),
{
    proof {
        word_holds_its_fields(word);
    }
    let f: GateFields = unpack_word(word);
    pack_word(
        GateFields {
            ready: f.ready,
            closed: false,
            epoch: f.epoch,
            readers: f.readers,
            writers: f.writers,
        },
    )
}

/// The status that a word shows.
pub fn word_status(word: u64) -> (status: BucketStatus)
    ensures
        status == status_at(fields_of(word)),
{
    let f: GateFields = unpack_word(word);
    if f.closed {
        BucketStatus::Deleting
    } else if f.ready {
        BucketStatus::Ready
    } else {
        BucketStatus::Restoring
    }
}

/// What a write that was admitted at a word may do.
pub fn admission(observed: u64) -> (what: Admission)
    ensures
        what == admission_at(fields_of(observed)),
{
    let f: GateFields = unpack_word(observed);
    if f.ready && f.readers == 0 {
        Admission::CachedEligible
    } else {
        Admission::Durable
    }
}

/// What a read is told that was refused a ticket at a word: the cache answers, or nothing does.
pub fn refused_ticket(word: u64) -> (cache: bool)
    ensures
        cache == (fields_of(word).ready && !fields_of(word).closed),
{
    let f: GateFields = unpack_word(word);
    f.ready && !f.closed
}

// ---- a gate -----------------------------------------------------------------------------------

/// A write's claim on the bucket; it goes back with [`Gate::finish_write`].
#[derive(Debug, PartialEq, Eq)]
pub struct WriteGuard {
    claim: (),
}

/// A restoring read's ticket; it goes back with [`Gate::finish_read`].
#[derive(Debug, PartialEq, Eq)]
pub struct ReadGuard {
    claim: (),
}

/// What a delete saw before its listing.
#[derive(Clone, Copy, Debug, PartialEq, Eq)]
pub struct Quiescent {
    observed: u64,
}

impl Quiescent {
    pub closed spec fn saw(self) -> GateFields {
        fields_of(self.observed)
    }
}

/// A close that is not committed yet.
#[derive(Debug, PartialEq, Eq)]
pub struct ClosedGate {
    claim: (),
}

#[derive(Debug)]
pub struct Gate {
    state: u64,
}

impl View for Gate {
    type V = GateFields;

    closed spec fn view(&self) -> GateFields {
        fields_of(self.state)
    }
}

impl Gate {
    /// The bucket gate of a bucket that is ready, or else restoring.
    pub fn new(status: BucketStatus) -> (gate: Self)
        ensures
            gate@ == (GateFields {
                ready: status is Ready,
                closed: false,
                epoch: 0,
                readers: 0,
                writers: 0,
            }),
    {
        Gate {
            state: match status {
                BucketStatus::Ready => 0x8000_0000_0000_0000,
                _ => 0,
            },
        }
    }

    pub fn status(&self) -> (status: BucketStatus)
        ensures
            status == status_at(self@),
    {
        word_status(self.state)
    }

    /// Admits a write and says, of the same word, what it may do.
    pub fn enter_write(&mut self) -> (entered: Result<(WriteGuard, Admission), Refusal>)
        ensures
            match write_admitted(old(self)@) {
                Some(f) => final(self)@ == f && (entered matches Ok((_, what)) && what
                    == admission_at(old(self)@)),
                None => final(self)@ == old(self)@ && entered == Err::<
                    (WriteGuard, Admission),
                    Refusal,
                >(Refusal::Closed),
            },
    {
        match admit_write(self.state) {
            Some(next) => {
                let what: Admission = admission(self.state);
                self.state = next;
                Ok((WriteGuard { claim: () }, what))
            },
            None => Err(Refusal::Closed),
        }
    }

    pub fn finish_write(&mut self, guard: WriteGuard)
        requires
            old(self)@.writers > 0,
        ensures
            final(self)@ == (GateFields { writers: (old(self)@.writers - 1) as u32, ..old(self)@ }),
    {
        self.state = leave_write(self.state);
    }

    /// Says where a read goes; one that goes to the remote holds a ticket.
    pub fn read_ticket(&mut self) -> (readout: Result<Readout, Refusal>)
        ensures
            match ticket_taken(old(self)@) {
                Some(f) => final(self)@ == f && (readout matches Ok(Readout::Remote(_))),
                None => final(self)@ == old(self)@ && (if old(self)@.ready && !old(self)@.closed {
                    readout == Ok::<Readout, Refusal>(Readout::Cache)
                } else {
                    readout == Err::<Readout, Refusal>(Refusal::Closed)
                }),
            },
    {
        match take_ticket(self.state) {
            Some(next) => {
                self.state = next;
                Ok(Readout::Remote(ReadGuard { claim: () }))
            },
            None => if refused_ticket(self.state) {
                Ok(Readout::Cache)
            } else {
                Err(Refusal::Closed)
            },
        }
    }

    pub fn finish_read(&mut self, guard: ReadGuard)
        requires
            old(self)@.readers > 0,
        ensures
            final(self)@ == (GateFields { readers: (old(self)@.readers - 1) as u32, ..old(self)@ }),
    {
        self.state = drop_ticket(self.state);
    }

    /// Ends a restore: in place, and one way.
    pub fn flip(&mut self)
        ensures
            final(self)@ == (match made_ready(old(self)@) {
                Some(f) => f,
                None => old(self)@,
            }),
    {
        match set_ready(self.state) {
            Some(next) => {
                self.state = next;
            },
            None => {},
        }
    }

    /// What a delete must see before its listing.
    pub fn quiescent(&self) -> (seen: Option<Quiescent>)
        ensures
            match seen {
                Some(q) => is_quiescent(self@) && q.saw() == self@,
                None => !is_quiescent(self@),
            },
    {
        let f: GateFields = unpack_word(self.state);
        if f.closed || f.writers != 0 {
            None
        } else {
            Some(Quiescent { observed: self.state })
        }
    }

    /// Closes the bucket gate, if nothing that the listing depended on has changed.
    pub fn close(&mut self, seen: Quiescent) -> (closed: Option<ClosedGate>)
        ensures
            match closed_from(seen.saw(), old(self)@) {
                Some(f) => final(self)@ == f && closed is Some,
                None => final(self)@ == old(self)@ && closed is None,
            },
    {
        match set_closed(seen.observed, self.state) {
            Some(next) => {
                self.state = next;
                Some(ClosedGate { claim: () })
            },
            None => None,
        }
    }

    /// Keeps a close: the delete has committed.
    pub fn commit(&mut self, closed: ClosedGate)
        ensures
            final(self)@ == old(self)@,
    {
    }

    /// Gives an uncommitted close up: the bucket returns to service.
    pub fn abandon(&mut self, closed: ClosedGate)
        ensures
            final(self)@ == (GateFields { closed: false, ..old(self)@ }),
    {
        self.state = reopen(self.state);
    }
}

// ---- laws -------------------------------------------------------------------------------------

/// What can happen to a gate between a delete's look at it and its close.
pub enum Step {
    AdmitWrite,
    FinishWrite,
    TakeTicket,
    DropTicket,
    Flip,
    /// Another delete, which saw these fields, closes the bucket.
    Close(GateFields),
    /// Another delete gives its close up.
    Reopen,
}

/// The fields after a step; a step that is refused, or that has nothing to give back, changes
/// nothing.
pub open spec fn after_step(f: GateFields, step: Step) -> GateFields {
    match step {
        Step::AdmitWrite => match write_admitted(f) {
            Some(g) => g,
            None => f,
        },
        Step::FinishWrite => if f.writers > 0 {
            GateFields { writers: (f.writers - 1) as u32, ..f }
        } else {
            f
        },
        Step::TakeTicket => match ticket_taken(f) {
            Some(g) => g,
            None => f,
        },
        Step::DropTicket => if f.readers > 0 {
            GateFields { readers: (f.readers - 1) as u32, ..f }
        } else {
            f
        },
        Step::Flip => match made_ready(f) {
            Some(g) => g,
            None => f,
        },
        Step::Close(observed) => match closed_from(observed, f) {
            Some(g) => g,
            None => f,
        },
        Step::Reopen => GateFields { closed: false, ..f },
    }
}

pub open spec fn after_steps(f: GateFields, steps: Seq<Step>) -> GateFields
    decreases steps.len(),
{
    if steps.len() == 0 {
        f
    } else {
        after_step(after_steps(f, steps.drop_last()), steps.last())
    }
}

/// How many writes the steps admit.
pub open spec fn writes_admitted(f: GateFields, steps: Seq<Step>) -> nat
    decreases steps.len(),
{
    if steps.len() == 0 {
        0
    } else {
        let before = steps.drop_last();
        writes_admitted(f, before) + if steps.last() is AdmitWrite && write_admitted(
            after_steps(f, before),
        ) is Some {
            1nat
        } else {
            0
        }
    }
}

proof fn lemma_epoch_counts_writes(f: GateFields, steps: Seq<Step>)
    requires
        f.wf(),
    ensures
        after_steps(f, steps).wf(),
        after_steps(f, steps).epoch == (f.epoch + writes_admitted(f, steps)) % EPOCHS as int,
        f.ready ==> after_steps(f, steps).ready,
    decreases steps.len(),
{
    if steps.len() > 0 {
        lemma_epoch_counts_writes(f, steps.drop_last());
    }
}

/// A close never wins against a write that was admitted since the delete looked, whether or not it
/// has finished: unless the epoch has come all the way round, the close is refused.
pub proof fn a_write_since_the_look_defeats_the_close(seen: GateFields, steps: Seq<Step>)
    requires
        seen.wf(),
        0 < writes_admitted(seen, steps) < EPOCHS,
    ensures
        closed_from(seen, after_steps(seen, steps)) is None,
{
    lemma_epoch_counts_writes(seen, steps);
}

/// A close that a quiescent look allows leaves no write in flight.
pub proof fn a_close_wins_only_over_an_idle_gate(seen: GateFields, now: GateFields)
    requires
        is_quiescent(seen),
        closed_from(seen, now) is Some,
    ensures
        now.writers == 0,
        !now.closed,
        seen.ready == now.ready,
{
    assert(now.without_readers().writers == seen.without_readers().writers);
    assert(now.without_readers().closed == seen.without_readers().closed);
    assert(now.without_readers().ready == seen.without_readers().ready);
}

/// Readers never defeat a close, however they overlap it.
pub proof fn readers_never_defeat_the_close(seen: GateFields, steps: Seq<Step>)
    requires
        forall|i: int|
            0 <= i < steps.len() ==> #[trigger] steps[i] is TakeTicket || steps[i] is DropTicket,
    ensures
        closed_from(seen, after_steps(seen, steps)) is Some,
    decreases steps.len(),
{
    if steps.len() > 0 {
        readers_never_defeat_the_close(seen, steps.drop_last());
        assert(steps.last() is TakeTicket || steps.last() is DropTicket);
    }
}

/// A flip between the look and the close defeats the close.
pub proof fn a_flip_defeats_the_close(seen: GateFields, steps: Seq<Step>)
    requires
        seen.wf(),
        !seen.ready,
        after_steps(seen, steps).ready,
    ensures
        closed_from(seen, after_steps(seen, steps)) is None,
{
}

/// The flip is one way: nothing that happens to a gate makes a ready bucket unready, and the writes
/// and reads in flight survive it.
pub proof fn the_flip_is_one_way(f: GateFields, steps: Seq<Step>)
    requires
        f.wf(),
    ensures
        f.ready ==> after_steps(f, steps).ready,
        after_step(f, Step::Flip).writers == f.writers,
        after_step(f, Step::Flip).readers == f.readers,
        after_step(f, Step::Flip).epoch == f.epoch,
{
    lemma_epoch_counts_writes(f, steps);
}

/// A closed gate refuses writes, tickets, flips and further deletes.
pub proof fn a_closed_gate_refuses_everything(f: GateFields)
    requires
        f.closed,
    ensures
        write_admitted(f) is None,
        ticket_taken(f) is None,
        made_ready(f) is None,
        !is_quiescent(f),
        status_at(f) == BucketStatus::Deleting,
{
}

/// A close that is given up leaves the bucket gate as it was.
pub proof fn an_uncommitted_close_reopens(seen: GateFields, now: GateFields)
    requires
        is_quiescent(seen),
        closed_from(seen, now) is Some,
    ensures
        (GateFields { closed: false, ..closed_from(seen, now)->0 }) == now,
{
    assert(now.without_readers().closed == seen.without_readers().closed);
}

/// A cache-first write is admitted only where no restoring read can still answer: none is in flight,
/// and none will be handed a ticket.
pub proof fn cached_writes_race_no_restoring_read(f: GateFields, steps: Seq<Step>)
    requires
        f.wf(),
        admission_at(f) is CachedEligible,
    ensures
        after_steps(f, steps).readers == 0,
        ticket_taken(after_steps(f, steps)) is None,
    decreases steps.len(),
{
    lemma_epoch_counts_writes(f, steps);
    if steps.len() > 0 {
        cached_writes_race_no_restoring_read(f, steps.drop_last());
        lemma_epoch_counts_writes(f, steps.drop_last());
    }
}

/// A write is admitted to every open gate that has room for it; it counts one writer and one epoch more,
/// and changes nothing else.
pub proof fn an_open_gate_admits_a_write(f: GateFields)
    requires
        f.wf(),
    ensures
        write_admitted(f) is Some <==> !f.closed && f.writers < 0xffff,
        write_admitted(f) is Some ==> ({
            let g = write_admitted(f)->0;
            &&& g.writers == f.writers + 1
            &&& f.epoch < 0x3fff_ffff ==> g.epoch == f.epoch + 1
            &&& f.epoch == 0x3fff_ffff ==> g.epoch == 0
            &&& g.ready == f.ready
            &&& g.closed == f.closed
            &&& g.readers == f.readers
        }),
{
}

/// A ticket is for a bucket that is still being restored; it counts one reader more and changes nothing
/// else.
pub proof fn a_restoring_gate_gives_tickets(f: GateFields)
    ensures
        ticket_taken(f) is Some <==> !f.ready && !f.closed && f.readers < 0xffff,
        ticket_taken(f) is Some ==> ({
            let g = ticket_taken(f)->0;
            &&& g.readers == f.readers + 1
            &&& g.writers == f.writers
            &&& g.epoch == f.epoch
            &&& g.ready == f.ready
            &&& g.closed == f.closed
        }),
{
}

/// An open gate is made ready once, and only its readiness changes.
pub proof fn an_open_gate_is_made_ready_once(f: GateFields)
    ensures
        made_ready(f) is Some <==> !f.ready && !f.closed,
        made_ready(f) is Some ==> ({
            let g = made_ready(f)->0;
            &&& g.ready && !g.closed
            &&& g.readers == f.readers && g.writers == f.writers && g.epoch == f.epoch
            &&& made_ready(g) is None
        }),
{
}

/// A close succeeds exactly where nothing but the readers has changed since the look, and only closes.
pub proof fn a_close_succeeds_where_nothing_has_changed(seen: GateFields, now: GateFields)
    ensures
        closed_from(seen, now) is Some <==> seen.ready == now.ready && seen.closed == now.closed
            && seen.epoch == now.epoch && seen.writers == now.writers,
        closed_from(seen, now) is Some ==> ({
            let g = closed_from(seen, now)->0;
            &&& g.closed && g.ready == now.ready && g.epoch == now.epoch
            &&& g.readers == now.readers && g.writers == now.writers
        }),
{
}

/// A write may be answered from the cache exactly in a ready bucket that no restoring read is in; a gate
/// is quiet exactly where it is open and no write is in it.
pub proof fn what_a_gate_shows(f: GateFields)
    ensures
        admission_at(f) == Admission::CachedEligible <==> f.ready && f.readers == 0,
        admission_at(f) == Admission::Durable <==> !f.ready || f.readers > 0,
        is_quiescent(f) <==> !f.closed && f.writers == 0,
        status_at(f) == BucketStatus::Deleting <==> f.closed,
        status_at(f) == BucketStatus::Ready <==> f.ready && !f.closed,
        status_at(f) == BucketStatus::Restoring <==> !f.ready && !f.closed,
{
}

/// A word leads to the fields it holds and to no other, and a refusal to none.
pub proof fn a_word_leads_to_the_fields_it_holds(word: u64, f: GateFields)
    ensures
        leads_to(Some(word), Some(f)) <==> fields_of(word) == f,
        !leads_to(Some(word), None),
        !leads_to(None, Some(f)),
        leads_to(None, None),
{
    word_holds_its_fields(word);
}

/// The word counts each field in its own place: a writer in the lowest bits, then a reader, an epoch, the
/// closing and the readiness; a gate that is fresh and restoring is zero.
pub proof fn each_field_counts_in_its_own_place(f: GateFields)
    ensures
        (GateFields { ready: false, closed: false, epoch: 0, readers: 0, writers: 0 }).word() == 0,
        f.writers < u32::MAX ==> (GateFields { writers: (f.writers + 1) as u32, ..f }).word()
            == f.word() + 1,
        f.readers < u32::MAX ==> (GateFields { readers: (f.readers + 1) as u32, ..f }).word()
            == f.word() + 0x1_0000,
        f.epoch < u32::MAX ==> (GateFields { epoch: (f.epoch + 1) as u32, ..f }).word() == f.word()
            + 0x1_0000_0000,
        !f.closed ==> (GateFields { closed: true, ..f }).word() == f.word() + 0x4000_0000_0000_0000,
        !f.ready ==> (GateFields { ready: true, ..f }).word() == f.word() + 0x8000_0000_0000_0000,
        f.without_readers().readers == 0,
{
}

} // verus!
