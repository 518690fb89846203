//! One body, two sinks, one pass.
//!
//! Each chunk of the source is handed to both branches, and the source is read on only once both
//! have taken it: the slower sink paces the read.  A branch that is dropped stops holding the source
//! back, and the other reads the body out in full.

use vstd::prelude::*;
use vstd::string::StringExecFns;

verus! {

/// What the source had for a branch that read it.
pub enum Sourced {
    Pending,
    Chunk(Vec<u8>),
    Failed(String),
    Ended,
}

/// What a branch does next.
pub enum BranchAction {
    /// Read the source and report what it had.
    PollSource,
    /// Wait to be woken.
    Park,
    Give(Vec<u8>),
    Fail(String),
    End,
}

/// An action, with bytes and text as sequences.
pub enum BranchActionView {
    PollSource,
    Park,
    Give(Seq<u8>),
    Fail(Seq<char>),
    End,
}

impl View for BranchAction {
    type V = BranchActionView;

    open spec fn view(&self) -> BranchActionView {
        match *self {
            BranchAction::PollSource => BranchActionView::PollSource,
            BranchAction::Park => BranchActionView::Park,
            BranchAction::Give(bytes) => BranchActionView::Give(bytes@),
            BranchAction::Fail(why) => BranchActionView::Fail(why@),
            BranchAction::End => BranchActionView::End,
        }
    }
}

/// What the source had, with bytes and text as sequences.
pub enum SourcedView {
    Pending,
    Chunk(Seq<u8>),
    Failed(Seq<char>),
    Ended,
}

impl View for Sourced {
    type V = SourcedView;

    open spec fn view(&self) -> SourcedView {
        match *self {
            Sourced::Pending => SourcedView::Pending,
            Sourced::Chunk(bytes) => SourcedView::Chunk(bytes@),
            Sourced::Failed(why) => SourcedView::Failed(why@),
            Sourced::Ended => SourcedView::Ended,
        }
    }
}

/// One of the two branches.
#[derive(Clone, Copy, Debug, PartialEq, Eq, Structural)]
pub enum Side {
    First,
    Second,
}

/// The other branch.
pub open spec fn peer_of(side: Side) -> Side {
    match side {
        Side::First => Side::Second,
        Side::Second => Side::First,
    }
}

/// A flag for each branch.
#[derive(Clone, Copy, Debug, PartialEq, Eq, Structural)]
pub struct Both {
    pub first: bool,
    pub second: bool,
}

impl Both {
    pub open spec fn at(self, side: Side) -> bool {
        match side {
            Side::First => self.first,
            Side::Second => self.second,
        }
    }

    pub open spec fn with(self, side: Side, flag: bool) -> Both {
        match side {
            Side::First => Both { first: flag, ..self },
            Side::Second => Both { second: flag, ..self },
        }
    }

    fn get(&self, side: Side) -> (flag: bool)
        ensures
            flag == self.at(side),
    {
        match side {
            Side::First => self.first,
            Side::Second => self.second,
        }
    }

    fn set(&mut self, side: Side, flag: bool)
        ensures
            *final(self) == old(self).with(side, flag),
    {
        match side {
            Side::First => {
                self.first = flag;
            },
            Side::Second => {
                self.second = flag;
            },
        }
    }
}

/// What two branches share.
#[verifier::ext_equal]
pub struct TeeView {
    /// The chunk that both branches must take before the source is read on.
    pub chunk: Option<Seq<u8>>,
    pub taken: Both,
    pub ended: bool,
    pub failed: Option<Seq<char>>,
    /// Which branches wait to be woken.
    pub parked: Both,
    /// The branch that is to be woken once the lock is let go.
    pub wake: Option<Side>,
    /// Which branches are still held by anyone.
    pub live: Both,
}

/// A branch that waits is to be woken.
pub open spec fn woken(t: TeeView, side: Side) -> TeeView {
    if t.parked.at(side) {
        TeeView { parked: t.parked.with(side, false), wake: Some(side), ..t }
    } else {
        t
    }
}

/// The chunk once a branch that nobody holds counts as having taken it, and it is let go where both
/// have.
pub open spec fn settled(t: TeeView, side: Side) -> TeeView {
    let taken = if t.live.at(peer_of(side)) {
        t.taken
    } else {
        t.taken.with(peer_of(side), true)
    };
    if taken.first && taken.second {
        TeeView { chunk: None, taken: Both { first: false, second: false }, ..t }
    } else {
        TeeView { taken, ..t }
    }
}

/// A branch asks for bytes.
pub open spec fn polled(t: TeeView, side: Side) -> (TeeView, BranchActionView) {
    if t.failed is Some {
        (t, BranchActionView::Fail(t.failed->0))
    } else {
        let s = settled(t, side);
        match s.chunk {
            Some(chunk) => if s.taken.at(side) {
                (TeeView { parked: s.parked.with(side, true), ..s }, BranchActionView::Park)
            } else {
                (
                    woken(TeeView { taken: s.taken.with(side, true), ..s }, peer_of(side)),
                    BranchActionView::Give(chunk),
                )
            },
            None => if s.ended {
                (s, BranchActionView::End)
            } else {
                (s, BranchActionView::PollSource)
            },
        }
    }
}

/// What the message of a failed source is.
pub open spec fn tee_failure(why: Seq<char>) -> Seq<char> {
    "tee: reading the source failed mid-stream: "@ + why
}

/// A branch has read the source.
pub open spec fn fed(t: TeeView, side: Side, got: SourcedView) -> (TeeView, BranchActionView) {
    match got {
        SourcedView::Pending => (
            TeeView { parked: t.parked.with(side, true), ..t },
            BranchActionView::Park,
        ),
        SourcedView::Chunk(bytes) => polled(
            woken(
                TeeView {
                    chunk: if bytes.len() > 0 {
                        Some(bytes)
                    } else {
                        t.chunk
                    },
                    ..t
                },
                peer_of(side),
            ),
            side,
        ),
        SourcedView::Failed(why) => polled(
            woken(TeeView { ended: true, failed: Some(tee_failure(why)), ..t }, peer_of(side)),
            side,
        ),
        SourcedView::Ended => (
            woken(TeeView { ended: true, ..t }, peer_of(side)),
            BranchActionView::End,
        ),
    }
}

/// A branch is let go of.
pub open spec fn dropped(t: TeeView, side: Side) -> TeeView {
    woken(TeeView { live: t.live.with(side, false), ..t }, peer_of(side))
}

pub struct Tee {
    chunk: Option<Vec<u8>>,
    taken: Both,
    ended: bool,
    failed: Option<String>,
    parked: Both,
    wake: Option<Side>,
    live: Both,
}

impl View for Tee {
    type V = TeeView;

    closed spec fn view(&self) -> TeeView {
        TeeView {
            chunk: match self.chunk {
                Some(c) => Some(c@),
                None => None,
            },
            taken: self.taken,
            ended: self.ended,
            failed: match self.failed {
                Some(e) => Some(e@),
                None => None,
            },
            parked: self.parked,
            wake: self.wake,
            live: self.live,
        }
    }
}

/// Two branches of a source that has not been read.
pub open spec fn fresh_tee() -> TeeView {
    TeeView {
        chunk: None,
        taken: Both { first: false, second: false },
        ended: false,
        failed: None,
        parked: Both { first: false, second: false },
        wake: None,
        live: Both { first: true, second: true },
    }
}

fn other(side: Side) -> (peer: Side)
    ensures
        peer == peer_of(side),
{
    match side {
        Side::First => Side::Second,
        Side::Second => Side::First,
    }
}

impl Tee {
    pub fn new() -> (tee: Self)
        ensures
            tee@ == fresh_tee(),
    {
        let no = Both { first: false, second: false };
        Tee {
            chunk: None,
            taken: no,
            ended: false,
            failed: None,
            parked: no,
            wake: None,
            live: Both { first: true, second: true },
        }
    }

    fn wake(&mut self, side: Side)
        ensures
            final(self)@ == woken(old(self)@, side),
    {
        if self.parked.get(side) {
            self.parked.set(side, false);
            self.wake = Some(side);
        }
    }

    /// A branch asks for bytes.
    pub fn poll(&mut self, side: Side) -> (action: BranchAction)
        ensures
            polled(old(self)@, side) == (final(self)@, action@),
    {
        if let Some(why) = &self.failed {
            return BranchAction::Fail(why.clone());
        }
        let peer = other(side);
        let ghost before = self@;
        if !self.live.get(peer) {
            self.taken.set(peer, true);
        }
        if self.taken.first && self.taken.second {
            self.chunk = None;
            self.taken = Both { first: false, second: false };
        }
        assert(self@ == settled(before, side));
        match &self.chunk {
            Some(chunk) => {
                if self.taken.get(side) {
                    self.parked.set(side, true);
                    return BranchAction::Park;
                }
                let copy: Vec<u8> = chunk.clone();
                assert(copy@ =~= chunk@);
                self.taken.set(side, true);
                self.wake(peer);
                BranchAction::Give(copy)
            },
            None => {
                if self.ended {
                    BranchAction::End
                } else {
                    BranchAction::PollSource
                }
            },
        }
    }

    /// A branch that was told to read the source reports what it had.
    pub fn feed(&mut self, side: Side, got: Sourced) -> (action: BranchAction)
        ensures
            fed(old(self)@, side, got@) == (final(self)@, action@),
    {
        let peer = other(side);
        match got {
            Sourced::Pending => {
                self.parked.set(side, true);
                BranchAction::Park
            },
            Sourced::Chunk(bytes) => {
                if bytes.len() > 0 {
                    self.chunk = Some(bytes);
                }
                self.wake(peer);
                self.poll(side)
            },
            Sourced::Failed(why) => {
                self.ended = true;
                let mut message: String = "tee: reading the source failed mid-stream: ".to_string();
                message.append(why.as_str());
                self.failed = Some(message);
                self.wake(peer);
                self.poll(side)
            },
            Sourced::Ended => {
                self.ended = true;
                self.wake(peer);
                BranchAction::End
            },
        }
    }

    /// A branch is let go of.
    pub fn drop_branch(&mut self, side: Side)
        ensures
            final(self)@ == dropped(old(self)@, side),
    {
        self.live.set(side, false);
        let peer = other(side);
        self.wake(peer);
    }

    /// The branch that is to be woken now.
    pub fn take_wake(&mut self) -> (side: Option<Side>)
        ensures
            side == old(self)@.wake,
            final(self)@ == (TeeView { wake: None, ..old(self)@ }),
    {
        let side: Option<Side> = self.wake;
        self.wake = None;
        side
    }
}

// ---- laws -------------------------------------------------------------------------------------

/// What the users of a tee do.
pub enum TeeOp {
    /// A branch asks for bytes; should it read the source, the source has this.
    Poll(Side, SourcedView),
    Drop(Side),
}

/// A tee, what the source has given so far, and what each branch has been given.
pub struct TeeRun {
    pub tee: TeeView,
    pub source: Seq<Seq<u8>>,
    pub first: Seq<Seq<u8>>,
    pub second: Seq<Seq<u8>>,
}

impl TeeRun {
    pub open spec fn given(self, side: Side) -> Seq<Seq<u8>> {
        match side {
            Side::First => self.first,
            Side::Second => self.second,
        }
    }

    /// A branch has been given what an action gives.
    pub open spec fn took(self, side: Side, action: BranchActionView) -> TeeRun {
        match action {
            BranchActionView::Give(bytes) => match side {
                Side::First => TeeRun { first: self.first.push(bytes), ..self },
                Side::Second => TeeRun { second: self.second.push(bytes), ..self },
            },
            _ => self,
        }
    }
}

pub open spec fn after_tee_op(r: TeeRun, op: TeeOp) -> TeeRun {
    match op {
        TeeOp::Poll(side, got) => {
            let (t, action) = polled(r.tee, side);
            if action is PollSource {
                let (u, then_action) = fed(t, side, got);
                let source = match got {
                    SourcedView::Chunk(bytes) if bytes.len() > 0 => r.source.push(bytes),
                    _ => r.source,
                };
                TeeRun { tee: u, source, ..r }.took(side, then_action)
            } else {
                TeeRun { tee: t, ..r }.took(side, action)
            }
        },
        TeeOp::Drop(side) => TeeRun { tee: dropped(r.tee, side), ..r },
    }
}

/// A tee after some operations.
pub open spec fn tee_run(ops: Seq<TeeOp>) -> TeeRun
    decreases ops.len(),
{
    if ops.len() == 0 {
        TeeRun { tee: fresh_tee(), source: Seq::empty(), first: Seq::empty(), second: Seq::empty() }
    } else {
        after_tee_op(tee_run(ops.drop_last()), ops.last())
    }
}

/// Only branches that somebody holds are polled.
pub open spec fn orderly(ops: Seq<TeeOp>) -> bool
    decreases ops.len(),
{
    ops.len() == 0 || {
        &&& orderly(ops.drop_last())
        &&& ops.last() matches TeeOp::Poll(side, _) ==> tee_run(ops.drop_last()).tee.live.at(side)
    }
}

/// A branch has all that the source gave, but for the chunk that it still has to take.
pub open spec fn keeps_up(r: TeeRun, side: Side) -> bool {
    if r.tee.chunk is Some && !r.tee.taken.at(side) {
        &&& r.source.len() > 0
        &&& r.source.last() == r.tee.chunk->0
        &&& r.given(side) == r.source.drop_last()
    } else {
        r.given(side) == r.source
    }
}

/// Neither branch misses, repeats or reorders anything, however they are polled: each has been given
/// all that the source gave, but for one chunk at most, and the source is read on only once both
/// have that one.
pub proof fn both_branches_see_the_whole_body(ops: Seq<TeeOp>, side: Side)
    requires
        orderly(ops),
        tee_run(ops).tee.live.at(side),
    ensures
        keeps_up(tee_run(ops), side),
    decreases ops.len(),
{
    lemma_run(ops);
}

spec fn run_inv(r: TeeRun) -> bool {
    &&& r.tee.live.first ==> keeps_up(r, Side::First)
    &&& r.tee.live.second ==> keeps_up(r, Side::Second)
    &&& r.tee.chunk is Some ==> r.source.len() > 0 && r.source.last() == r.tee.chunk->0
    &&& r.tee.chunk is None && r.tee.live.first ==> !r.tee.taken.first
    &&& r.tee.chunk is None && r.tee.live.second ==> !r.tee.taken.second
    &&& r.tee.ended ==> r.tee.chunk is None
    &&& r.tee.failed is Some ==> r.tee.ended
}

proof fn lemma_run(ops: Seq<TeeOp>)
    requires
        orderly(ops),
    ensures
        run_inv(tee_run(ops)),
    decreases ops.len(),
{
    if ops.len() > 0 {
        lemma_run(ops.drop_last());
        let r = tee_run(ops.drop_last());
        match ops.last() {
            TeeOp::Poll(side, got) => {
                lemma_polled(r, side);
                let s = TeeRun { tee: polled(r.tee, side).0, ..r };
                if polled(r.tee, side).1 is PollSource {
                    lemma_fed(s, side, got);
                }
            },
            TeeOp::Drop(side) => {},
        }
    }
}

proof fn lemma_polled(r: TeeRun, side: Side)
    requires
        r.tee.live.at(side),
        run_inv(r),
    ensures
        run_inv((TeeRun { tee: polled(r.tee, side).0, ..r }).took(side, polled(r.tee, side).1)),
        polled(r.tee, side).0.live == r.tee.live,
        polled(r.tee, side).1 is PollSource ==> polled(r.tee, side).0.chunk is None,
        polled(r.tee, side).1 is PollSource ==> !polled(r.tee, side).0.ended,
{
    if r.tee.chunk is Some {
        assert(r.source.drop_last().push(r.source.last()) =~= r.source);
    }
}

proof fn lemma_fed(r: TeeRun, side: Side, got: SourcedView)
    requires
        r.tee.live.at(side),
        run_inv(r),
        r.tee.chunk is None,
        !r.tee.ended,
    ensures
        run_inv(
            (TeeRun {
                tee: fed(r.tee, side, got).0,
                source: match got {
                    SourcedView::Chunk(bytes) if bytes.len() > 0 => r.source.push(bytes),
                    _ => r.source,
                },
                ..r
            }).took(side, fed(r.tee, side, got).1),
        ),
{
    match got {
        SourcedView::Chunk(bytes) => {
            if bytes.len() > 0 {
                assert(r.source.push(bytes).drop_last() =~= r.source);
                let n = TeeRun {
                    tee: woken(TeeView { chunk: Some(bytes), ..r.tee }, peer_of(side)),
                    source: r.source.push(bytes),
                    ..r
                };
                assert(run_inv(n));
                lemma_polled(n, side);
            } else {
                let n = TeeRun { tee: woken(r.tee, peer_of(side)), ..r };
                assert(TeeView { chunk: r.tee.chunk, ..r.tee } =~= r.tee);
                lemma_polled(n, side);
            }
        },
        SourcedView::Failed(why) => {},
        SourcedView::Pending => {},
        SourcedView::Ended => {},
    }
}

/// Each branch that is held is given every chunk that the source had, once and in order, and then the
/// end, or the failure of the source:
/// - what it is given next is the one chunk of the source that it does not have yet;
/// - the source is asked for more only where it has every chunk, and so has its peer, unless the peer
///   was let go of;
/// - it waits only where it has every chunk and its peer, which is held, lacks the last;
/// - it is told of the end, or of a failure, only where it has every chunk.
pub proof fn a_branch_is_given_the_body_in_order(ops: Seq<TeeOp>, side: Side)
    requires
        orderly(ops),
        tee_run(ops).tee.live.at(side),
    ensures
        ({
            let r = tee_run(ops);
            let has_all = r.given(side) == r.source;
            let peer_has_all = r.given(peer_of(side)) == r.source;
            let peer_held = r.tee.live.at(peer_of(side));
            match polled(r.tee, side).1 {
                BranchActionView::Give(bytes) => r.source == r.given(side).push(bytes),
                BranchActionView::PollSource => has_all && (peer_held ==> peer_has_all)
                    && !r.tee.ended,
                BranchActionView::Park => has_all && peer_held && r.source.len() > 0 && r.given(
                    peer_of(side),
                ) == r.source.drop_last(),
                BranchActionView::End => has_all && r.tee.ended && r.tee.failed is None,
                BranchActionView::Fail(why) => has_all && r.tee.failed == Some(why),
            }
        }),
{
    lemma_run(ops);
    let r = tee_run(ops);
    if r.tee.chunk is Some {
        assert(r.source.drop_last().push(r.source.last()) =~= r.source);
    }
}

/// What a branch that asks for bytes is answered; should it read the source, the source has `got`.
pub open spec fn answer(r: TeeRun, side: Side, got: SourcedView) -> BranchActionView {
    let (t, action) = polled(r.tee, side);
    if action is PollSource {
        fed(t, side, got).1
    } else {
        action
    }
}

/// All that a branch was answered, but for the times when there was nothing yet.
pub open spec fn yielded(ops: Seq<TeeOp>, side: Side) -> Seq<BranchActionView>
    decreases ops.len(),
{
    if ops.len() == 0 {
        Seq::empty()
    } else {
        let before = yielded(ops.drop_last(), side);
        match ops.last() {
            TeeOp::Poll(at, got) => {
                let a = answer(tee_run(ops.drop_last()), at, got);
                if at == side && (a is Give || a is End || a is Fail) {
                    before.push(a)
                } else {
                    before
                }
            },
            TeeOp::Drop(_) => before,
        }
    }
}

/// What a branch is told of a source that is over.
pub open spec fn last_word(t: TeeView) -> BranchActionView {
    match t.failed {
        Some(why) => BranchActionView::Fail(why),
        None => BranchActionView::End,
    }
}

/// Whether a branch has yielded the first `n` chunks of the source, and behind them, where they are
/// all of its chunks and it is over, how it ended, and nothing else.
pub open spec fn yields_in_order(r: TeeRun, y: Seq<BranchActionView>, n: int) -> bool {
    &&& 0 <= n <= y.len()
    &&& n <= r.source.len()
    &&& forall|i: int| 0 <= i < n ==> #[trigger] y[i] == BranchActionView::Give(r.source[i])
    &&& forall|i: int| n <= i < y.len() ==> #[trigger] y[i] == last_word(r.tee)
    &&& n < y.len() ==> r.tee.ended && n == r.source.len()
}

/// What asking for bytes does to a run.
proof fn lemma_answered(q: TeeRun, at: Side, got: SourcedView)
    requires
        run_inv(q),
        q.tee.live.at(at),
    ensures
        ({
            let r = after_tee_op(q, TeeOp::Poll(at, got));
            let a = answer(q, at, got);
            &&& r.tee.live == q.tee.live
            &&& r.given(peer_of(at)) == q.given(peer_of(at))
            &&& q.tee.ended ==> r.tee.ended && r.tee.failed == q.tee.failed && r.source == q.source
                && a == last_word(q.tee)
            &&& match a {
                BranchActionView::Give(bytes) => r.given(at) == q.given(at).push(bytes) && r.given(
                    at,
                ) == r.source,
                _ => r.given(at) == q.given(at),
            }
            &&& a is End || a is Fail ==> r.tee.ended && r.given(at) == r.source && a == last_word(
                r.tee,
            )
            &&& q.source.len() <= r.source.len()
            &&& forall|i: int| 0 <= i < q.source.len() ==> #[trigger] r.source[i] == q.source[i]
        }),
{
    if q.tee.chunk is Some {
        assert(q.source.drop_last().push(q.source.last()) =~= q.source);
    }
    if let SourcedView::Chunk(bytes) = got {
        assert(q.source.push(bytes).drop_last() =~= q.source);
    }
}

proof fn lemma_yields(before: Seq<TeeOp>, side: Side, at: Side, got: SourcedView)
    requires
        orderly(before),
        tee_run(before).tee.live.at(side),
        tee_run(before).tee.live.at(at),
        run_inv(tee_run(before)),
        yields_in_order(
            tee_run(before),
            yielded(before, side),
            tee_run(before).given(side).len() as int,
        ),
    ensures
        ({
            let r = after_tee_op(tee_run(before), TeeOp::Poll(at, got));
            let a = answer(tee_run(before), at, got);
            yields_in_order(
                r,
                if at == side && (a is Give || a is End || a is Fail) {
                    yielded(before, side).push(a)
                } else {
                    yielded(before, side)
                },
                r.given(side).len() as int,
            )
        }),
{
    let q = tee_run(before);
    let r = after_tee_op(q, TeeOp::Poll(at, got));
    let a = answer(q, at, got);
    let y = yielded(before, side);
    let n = q.given(side).len() as int;
    lemma_answered(q, at, got);
    if at == side && a is Give {
        assert(y.len() == n);
        let z = y.push(a);
        assert forall|i: int| 0 <= i < n + 1 implies #[trigger] z[i] == BranchActionView::Give(
            r.source[i],
        ) by {
            if i < n {
                assert(y[i] == z[i]);
            }
        }
    } else if at == side && (a is End || a is Fail) {
        let z = y.push(a);
        assert forall|i: int| 0 <= i < n implies #[trigger] z[i] == BranchActionView::Give(
            r.source[i],
        ) by {
            assert(y[i] == z[i]);
        }
        assert forall|i: int| n <= i < z.len() implies #[trigger] z[i] == last_word(r.tee) by {
            if i < y.len() {
                assert(y[i] == z[i]);
            }
        }
    } else {
        assert(at != side ==> at == peer_of(side) && side == peer_of(at));
    }
}

/// Whatever the order in which the branches are polled and let go of, a branch that is still held has
/// yielded the chunks of the source, each once and in order, none left out; and once it has them all
/// and the source is over, it yields the end, or the failure of the source, every time.
pub proof fn a_branch_yields_the_body_and_then_its_end(ops: Seq<TeeOp>, side: Side)
    requires
        orderly(ops),
        tee_run(ops).tee.live.at(side),
    ensures
        yields_in_order(tee_run(ops), yielded(ops, side), tee_run(ops).given(side).len() as int),
        tee_run(ops).source.len() <= tee_run(ops).given(side).len() + 1,
    decreases ops.len(),
{
    lemma_run(ops);
    if ops.len() > 0 {
        let before = ops.drop_last();
        lemma_run(before);
        match ops.last() {
            TeeOp::Poll(at, got) => {
                lemma_answered(tee_run(before), at, got);
                a_branch_yields_the_body_and_then_its_end(before, side);
                lemma_yields(before, side, at, got);
            },
            TeeOp::Drop(at) => {
                a_branch_yields_the_body_and_then_its_end(before, side);
            },
        }
    }
}

/// The end and a failure are final: whatever is done with the branches later, the source is not read
/// again, and both branches are told the same whenever they ask.
pub proof fn the_end_and_a_failure_are_final(ops: Seq<TeeOp>, more: Seq<TeeOp>, side: Side)
    requires
        orderly(ops),
        orderly(ops + more),
        tee_run(ops).tee.ended,
    ensures
        tee_run(ops + more).source == tee_run(ops).source,
        tee_run(ops + more).tee.ended,
        tee_run(ops + more).tee.failed == tee_run(ops).tee.failed,
        polled(tee_run(ops + more).tee, side).1 == last_word(tee_run(ops).tee),
    decreases more.len(),
{
    lemma_run(ops);
    lemma_run(ops + more);
    if more.len() == 0 {
        assert(ops + more =~= ops);
    } else {
        let before = ops + more.drop_last();
        assert((ops + more).drop_last() =~= before);
        assert((ops + more).last() == more.last());
        lemma_run(before);
        the_end_and_a_failure_are_final(ops, more.drop_last(), side);
        if let TeeOp::Poll(at, _) = more.last() {
            the_end_and_a_failure_are_final(ops, more.drop_last(), at);
        }
    }
}

/// A branch that is told that the body is over has been given all of it.
pub proof fn the_end_comes_after_the_whole_body(ops: Seq<TeeOp>, side: Side)
    requires
        orderly(ops),
        tee_run(ops).tee.live.at(side),
        polled(tee_run(ops).tee, side).1 is End,
    ensures
        tee_run(ops).given(side) == tee_run(ops).source,
{
    lemma_run(ops);
}

/// A source that failed fails both branches from then on.
pub proof fn a_failed_source_fails_both_branches(t: TeeView, side: Side, why: Seq<char>, at: Side)
    ensures
        fed(t, side, SourcedView::Failed(why)).1 == BranchActionView::Fail(tee_failure(why)),
        polled(fed(t, side, SourcedView::Failed(why)).0, at).1 == BranchActionView::Fail(
            tee_failure(why),
        ),
{
}

/// No wakeup is lost: whatever a branch does that its waiting peer may be waiting for, the peer is
/// the one to be woken.
pub proof fn a_waiting_peer_is_woken(t: TeeView, side: Side, got: SourcedView)
    requires
        t.parked.at(peer_of(side)),
    ensures
        polled(t, side).1 is Give ==> polled(t, side).0.wake == Some(peer_of(side)),
        got !is Pending ==> fed(t, side, got).0.wake == Some(peer_of(side)),
        dropped(t, side).wake == Some(peer_of(side)),
{
}

/// A branch whose peer is gone never waits for it.
pub proof fn a_survivor_never_waits_for_its_peer(t: TeeView, side: Side)
    requires
        !t.live.at(peer_of(side)),
    ensures
        polled(t, side).1 !is Park,
{
}

/// A branch that has to wait is marked as waiting, and no other; one that is given something does not
/// wait, and a mark stands until the branch is woken.
pub proof fn a_branch_that_waits_is_marked(t: TeeView, side: Side, got: SourcedView)
    ensures
        polled(t, side).1 is Park ==> polled(t, side).0.parked.at(side),
        fed(t, side, SourcedView::Pending).1 is Park,
        fed(t, side, SourcedView::Pending).0.parked.at(side),
        fed(t, side, SourcedView::Pending).0.chunk == t.chunk,
        fed(t, side, SourcedView::Pending).0.parked.at(peer_of(side)) == t.parked.at(peer_of(side)),
        t.parked.at(peer_of(side)) && !(polled(t, side).1 is Give) ==> polled(t, side).0.parked.at(
            peer_of(side),
        ),
        !t.parked.at(peer_of(side)) ==> polled(t, side).0.wake == t.wake,
        peer_of(side) != side && peer_of(peer_of(side)) == side,
{
}

/// What a branch reads from the source it is given at once, and its peer finds it there.
pub proof fn what_is_read_is_shared(t: TeeView, side: Side, bytes: Seq<u8>)
    requires
        t.chunk is None,
        t.failed is None,
        !t.taken.first,
        !t.taken.second,
        bytes.len() > 0,
        t.live.first && t.live.second,
    ensures
        fed(t, side, SourcedView::Chunk(bytes)).1 == BranchActionView::Give(bytes),
        polled(fed(t, side, SourcedView::Chunk(bytes)).0, peer_of(side)).1
            == BranchActionView::Give(bytes),
        polled(fed(t, side, SourcedView::Chunk(bytes)).0, side).1 is Park,
        polled(polled(fed(t, side, SourcedView::Chunk(bytes)).0, peer_of(side)).0, side).1
            == if t.ended {
            BranchActionView::End
        } else {
            BranchActionView::PollSource
        },
        fed(t, side, SourcedView::Chunk(Seq::empty())).0.chunk is None,
{
}

/// A branch that is dropped is gone and its peer is not; the source goes on for the peer as it was.
pub proof fn a_dropped_branch_leaves_its_peer_as_it_was(t: TeeView, side: Side)
    ensures
        !dropped(t, side).live.at(side),
        dropped(t, side).live.at(peer_of(side)) == t.live.at(peer_of(side)),
        dropped(t, side).chunk == t.chunk,
        dropped(t, side).taken == t.taken,
        dropped(t, side).ended == t.ended,
        dropped(t, side).failed == t.failed,
        tee_failure(Seq::empty()) == "tee: reading the source failed mid-stream: "@,
{
    assert(tee_failure(Seq::empty()) =~= "tee: reading the source failed mid-stream: "@);
}

/// A new branch pair has read nothing: both are there, neither waits, and the source is asked first.
pub proof fn a_new_pair_asks_the_source(side: Side)
    ensures
        polled(fresh_tee(), side).1 is PollSource,
        fresh_tee().live.at(side),
        !fresh_tee().parked.at(side),
        fresh_tee().wake is None,
{
}

/// What is said of an answer to a branch is said of the answer itself.
pub proof fn an_answer_is_seen_as_it_is(x: BranchAction)
    ensures
        x is PollSource <==> x@ is PollSource,
        x is Park <==> x@ is Park,
        x is Give <==> x@ is Give,
        x is Give ==> x@->Give_0 == x->Give_0@,
        x is Fail <==> x@ is Fail,
        x is Fail ==> x@->Fail_0 == x->Fail_0@,
        x is End <==> x@ is End,
{
}

/// What is said of what the source gave is said of just that.
pub proof fn what_a_source_gave_is_seen_as_it_is(x: Sourced)
    ensures
        x is Pending <==> x@ is Pending,
        x is Chunk <==> x@ is Chunk,
        x is Chunk ==> x@->Chunk_0 == x->Chunk_0@,
        x is Failed <==> x@ is Failed,
        x is Failed ==> x@->Failed_0 == x->Failed_0@,
        x is Ended <==> x@ is Ended,
{
}

} // verus!
