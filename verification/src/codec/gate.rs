//! The buffer between the cipher and whoever takes the encrypted body.

use crate::format::offset::CHUNK_CIPHERTEXT;
use vstd::prelude::*;

verus! {

/// How many ciphertext bytes are never handed over on their own.  A body whose digest turns out
/// wrong then ends short of its declared length, whenever the cipher chooses to write.
pub const HOLDBACK: usize = 1;

/// The ciphertext that has been written and not been taken yet.
pub struct CipherGate {
    held: Vec<u8>,
}

/// How many of the held bytes may be handed over.
pub open spec fn releasable(held: Seq<u8>) -> nat {
    if held.len() > HOLDBACK {
        (held.len() - HOLDBACK) as nat
    } else {
        0
    }
}

/// Whether a write of `n` bytes is taken: where it fits one chunk together with what may be handed
/// over, or where nothing may be.
pub open spec fn admits(held: Seq<u8>, n: nat) -> bool {
    releasable(held) == 0 || releasable(held) + n <= CHUNK_CIPHERTEXT
}

impl View for CipherGate {
    type V = Seq<u8>;

    closed spec fn view(&self) -> Seq<u8> {
        self.held@
    }
}

impl CipherGate {
    pub fn new() -> (gate: Self)
        ensures
            gate@ == Seq::<u8>::empty(),
    {
        CipherGate { held: Vec::new() }
    }

    pub fn len(&self) -> (len: usize)
        ensures
            len == self@.len(),
    {
        self.held.len()
    }

    /// Takes a write whole, or refuses it until something has been handed over.
    pub fn offer(&mut self, data: &[u8]) -> (taken: bool)
        ensures
            taken == admits(old(self)@, data@.len()),
            final(self)@ == if taken {
                old(self)@ + data@
            } else {
                old(self)@
            },
    {
        let len: usize = self.held.len();
        let n: usize = data.len();
        let chunk: usize = CHUNK_CIPHERTEXT as usize;
        if len > HOLDBACK {
            if n > chunk || len - HOLDBACK > chunk - n {
                return false;
            }
        }
        self.held.extend_from_slice(data);
        assert(self.held@ =~= old(self).held@ + data@);
        true
    }

    /// Hands over everything but the bytes that are held back.
    pub fn take_released(&mut self) -> (out: Option<Vec<u8>>)
        ensures
            match out {
                Some(bytes) => {
                    &&& releasable(old(self)@) > 0
                    &&& bytes@ == old(self)@.take(releasable(old(self)@) as int)
                    &&& final(self)@ == old(self)@.skip(releasable(old(self)@) as int)
                },
                None => releasable(old(self)@) == 0 && final(self)@ == old(self)@,
            },
    {
        let len: usize = self.held.len();
        if len <= HOLDBACK {
            return None;
        }
        let rest: Vec<u8> = self.held.split_off(len - HOLDBACK);
        let mut out: Vec<u8> = rest;
        std::mem::swap(&mut self.held, &mut out);
        Some(out)
    }

    /// Whether a whole chunk may be handed over.
    pub fn is_full(&self) -> (full: bool)
        ensures
            full == (releasable(self@) >= CHUNK_CIPHERTEXT),
    {
        let len: usize = self.held.len();
        len > HOLDBACK && len - HOLDBACK >= CHUNK_CIPHERTEXT as usize
    }

    /// Hands over everything.
    pub fn take_all(&mut self) -> (out: Vec<u8>)
        ensures
            out@ == old(self)@,
            final(self)@ == Seq::<u8>::empty(),
    {
        let mut out: Vec<u8> = Vec::new();
        std::mem::swap(&mut self.held, &mut out);
        out
    }
}

// ---- laws -------------------------------------------------------------------------------------

/// What happens to the buffer before the verdict on a body.
pub enum GateOp {
    /// The cipher writes.
    Offer(Seq<u8>),
    /// The taker is handed what may be handed over.
    Release,
}

/// What has been taken in, what has been handed over, and what is held.
#[verifier::ext_equal]
pub struct Passage {
    pub taken: Seq<u8>,
    pub emitted: Seq<u8>,
    pub held: Seq<u8>,
}

pub open spec fn after_op(p: Passage, op: GateOp) -> Passage {
    match op {
        GateOp::Offer(data) => if admits(p.held, data.len()) {
            Passage { taken: p.taken + data, emitted: p.emitted, held: p.held + data }
        } else {
            p
        },
        GateOp::Release => Passage {
            taken: p.taken,
            emitted: p.emitted + p.held.take(releasable(p.held) as int),
            held: p.held.skip(releasable(p.held) as int),
        },
    }
}

/// What has passed through an empty buffer after some operations.
pub open spec fn passage(ops: Seq<GateOp>) -> Passage
    decreases ops.len(),
{
    if ops.len() == 0 {
        Passage { taken: Seq::empty(), emitted: Seq::empty(), held: Seq::empty() }
    } else {
        after_op(passage(ops.drop_last()), ops.last())
    }
}

/// Nothing is lost, repeated or reordered: what was handed over and what is held are, one after the
/// other, what was taken in.
pub proof fn the_passage_keeps_every_byte(ops: Seq<GateOp>)
    ensures
        passage(ops).taken == passage(ops).emitted + passage(ops).held,
    decreases ops.len(),
{
    if ops.len() > 0 {
        the_passage_keeps_every_byte(ops.drop_last());
        let p = passage(ops.drop_last());
        let q = passage(ops);
        match ops.last() {
            GateOp::Offer(data) => {
                assert(q.taken =~= q.emitted + q.held);
            },
            GateOp::Release => {
                assert(p.held =~= p.held.take(releasable(p.held) as int) + p.held.skip(
                    releasable(p.held) as int,
                ));
                assert(q.taken =~= q.emitted + q.held);
            },
        }
    }
}

/// Whatever the body, no more than one chunk and the held-back byte is buffered, as long as no
/// single write is larger than a chunk.
pub proof fn the_passage_holds_one_chunk(ops: Seq<GateOp>)
    requires
        forall|i: int|
            0 <= i < ops.len() ==> (#[trigger] ops[i] matches GateOp::Offer(data) ==> data.len()
                <= CHUNK_CIPHERTEXT),
    ensures
        passage(ops).held.len() <= CHUNK_CIPHERTEXT + HOLDBACK,
    decreases ops.len(),
{
    if ops.len() > 0 {
        assert(ops.last() == ops[ops.len() - 1]);
        the_passage_holds_one_chunk(ops.drop_last());
    }
}

/// Once anything has been taken in, what was handed over is short of it.
pub proof fn the_passage_stays_short(ops: Seq<GateOp>)
    requires
        passage(ops).taken.len() > 0,
    ensures
        passage(ops).emitted.len() < passage(ops).taken.len(),
{
    the_passage_keeps_every_byte(ops);
    lemma_something_is_held(ops);
}

proof fn lemma_something_is_held(ops: Seq<GateOp>)
    ensures
        passage(ops).taken.len() > 0 ==> passage(ops).held.len() > 0,
    decreases ops.len(),
{
    if ops.len() > 0 {
        lemma_something_is_held(ops.drop_last());
    }
}

/// A write is refused only while there is something to hand over, so a stalled writer always frees
/// itself; and into a drained buffer any write goes.
pub proof fn a_refused_write_can_be_freed(held: Seq<u8>, n: nat)
    ensures
        !admits(held, n) ==> releasable(held) > 0,
        admits(held.skip(releasable(held) as int), n),
{
}

/// All of what is held may go but the last byte; and a write is taken where it finds the passage with
/// nothing to let go, or what is to go and the write fit one chunk together.
pub proof fn all_but_the_last_byte_may_go(held: Seq<u8>, last: u8, n: nat)
    ensures
        releasable(held.push(last)) == held.len(),
        releasable(Seq::empty()) == 0,
        held.len() == 0 ==> admits(held.push(last), n),
        held.len() > 0 ==> (admits(held.push(last), n) <==> held.len() + n <= 65552),
        admits(Seq::empty(), n),
{
}

} // verus!
