//! Pull-based encryption: one plaintext body becomes one age file, with the plaintext MD5 folded in
//! on the same pass and, where it is wanted, the facts trailer behind it.
//!
//! [`EncryptStream`] decides; whoever drives it polls the source and the cipher and reports what
//! came of it.  Nothing runs ahead of the consumer that is taking the bytes.

use crate::checksum::{
    checksum_of, sum_code, sum_fed, sum_finish, sum_start, sum_update,
};
use crate::codec::gate::{
    admits, passage, releasable, the_passage_keeps_every_byte, the_passage_stays_short, CipherGate,
    GateOp,
};
use crate::codes::{hex_encode, hex_of};
use crate::digest::{md5_digest, md5_fed, md5_finish, md5_of, md5_start, md5_update, Md5Stream};
use crate::format::envelope::{age_opened, Envelope, Error, PINNED_WORK_FACTOR};
use crate::format::offset::{ciphertext_len, framed, CHUNK_CIPHERTEXT, HLEN};
use crate::format::trailer::{
    a_sealed_object_opens, a_single_trailer_has_its_declared_length, a_tail_opens_one_way,
    algorithm_code, digest_size, encode_trailer, opens, single_trailer_len, trailer_of, ChecksumAlgorithm, ChecksumKind,
    ChecksumView, Footer, FooterKind, FooterView, StoredChecksum, TailView,
    TrailerKey, MIN_SINGLE_TRAILER_LEN,
};
use s3s::checksum::ChecksumHasher;
use vstd::prelude::*;
use vstd::slice::slice_subrange;

verus! {

/// The facts that a single-part object carries in its trailer, but for the MD5.
pub struct SingleTrailer {
    pub trailer_key: TrailerKey,
    pub object_key: String,
    pub mtime_ms: i64,
    pub checksum: Option<StoredChecksum>,
}

/// A checksum that the client asked for.
#[derive(Clone, Debug, PartialEq, Eq)]
pub struct RequestedChecksum {
    pub algorithm: ChecksumAlgorithm,
    /// The value that the client declared.
    pub declared: Option<Vec<u8>>,
}

pub struct EncryptOptions {
    /// `None` makes a bare age file: a part of a multipart object.
    pub trailer: Option<SingleTrailer>,
    /// The digest that the client declared.
    pub expected_md5: Option<[u8; 16]>,
    /// The checksum that the client asked for.
    pub checksum: Option<RequestedChecksum>,
}

impl Default for EncryptOptions {
    fn default() -> (options: Self)
        ensures
            options.trailer is None,
            options.expected_md5 is None,
            options.checksum is None,
    {
        EncryptOptions { trailer: None, expected_md5: None, checksum: None }
    }
}

/// What the body turned out to disagree with.
#[derive(Clone, Copy, Debug, PartialEq, Eq, Structural)]
pub enum DigestMismatch {
    Md5,
    Checksum,
}

/// The digests of a body that was handed over whole.
#[derive(Clone, Debug, PartialEq, Eq)]
pub struct ObjectDigests {
    pub etag: String,
    pub checksum: Option<StoredChecksum>,
}

/// The end of a body.
pub enum Finished {
    /// The last bytes.
    Tail(Vec<u8>, ObjectDigests),
    /// The body ends here, short of its declared length.
    Mismatch(DigestMismatch),
    /// The cipher wrote nothing at its close.
    NoFinalChunk,
}

pub open spec fn checksum_view(c: Option<StoredChecksum>) -> Option<ChecksumView> {
    match c {
        Some(c) => Some(c@),
        None => None,
    }
}

/// The algorithm of the checksum that a trailer will carry.
pub open spec fn trailer_algorithm(
    requested: Option<RequestedChecksum>,
    trailer: Option<SingleTrailer>,
) -> Option<ChecksumAlgorithm> {
    match (requested, trailer) {
        (Some(r), _) => Some(r.algorithm),
        (None, Some(t)) => match t.checksum {
            Some(c) => Some(c.algorithm),
            None => None,
        },
        (None, None) => None,
    }
}

/// The length of a trailer whose checksum has an algorithm.
pub open spec fn trailer_len(algorithm: Option<ChecksumAlgorithm>) -> nat {
    MIN_SINGLE_TRAILER_LEN as nat + (match algorithm {
        Some(a) => digest_size(a),
        None => 0,
    }) as nat
}

/// The length of what stands behind the ciphertext.
pub open spec fn tail_len(
    requested: Option<RequestedChecksum>,
    trailer: Option<SingleTrailer>,
) -> nat {
    if trailer is Some {
        trailer_len(trailer_algorithm(requested, trailer))
    } else {
        0
    }
}

/// The length that a body of `plen` plaintext bytes is declared to have.
pub open spec fn declared_len(plen: nat, options: EncryptOptions) -> nat {
    framed(plen, HLEN as nat) + tail_len(options.checksum, options.trailer)
}

/// The checksum that is taken of a body.
pub open spec fn taken_checksum(
    requested: Option<RequestedChecksum>,
    body: Seq<u8>,
) -> Option<ChecksumView> {
    match requested {
        Some(r) => Some(
            ChecksumView {
                algorithm: r.algorithm,
                kind: ChecksumKind::FullObject,
                value: checksum_of(algorithm_code(r.algorithm), body),
            },
        ),
        None => None,
    }
}

/// Whether a body has the checksum that the client declared, if it declared one.
pub open spec fn checksum_agrees(requested: Option<RequestedChecksum>, body: Seq<u8>) -> bool {
    requested matches Some(r) ==> (r.declared matches Some(d) ==> d@ == checksum_of(
        algorithm_code(r.algorithm),
        body,
    ))
}

/// Whether a body has the MD5 that the client declared, if it declared one.
pub open spec fn md5_agrees(expected: Option<[u8; 16]>, body: Seq<u8>) -> bool {
    expected matches Some(e) ==> e@ == md5_of(body)
}

/// The checksum that goes with a body: the one taken of it, or else the one stamped beforehand.
pub open spec fn effective_checksum(
    taken: Option<ChecksumView>,
    trailer: Option<SingleTrailer>,
) -> Option<ChecksumView> {
    match (taken, trailer) {
        (Some(c), _) => Some(c),
        (None, Some(t)) => checksum_view(t.checksum),
        (None, None) => None,
    }
}

/// Whether the checksum that was stamped beforehand, if there is one, has its algorithm's length.
pub open spec fn stamped_soundly(trailer: Option<SingleTrailer>) -> bool {
    trailer matches Some(t) ==> (t.checksum matches Some(c) ==> c.value@.len() == digest_size(
        c.algorithm,
    ))
}

/// The facts of a single-part object.
pub open spec fn single_facts(
    plen: u64,
    mtime_ms: i64,
    md5: Seq<u8>,
    checksum: Option<ChecksumView>,
) -> FooterView {
    FooterView { kind: FooterKind::Single, count: 1, plen, mtime_ms, md5, checksum }
}

/// What stands behind the ciphertext.
pub open spec fn appended(
    trailer: Option<SingleTrailer>,
    taken: Option<ChecksumView>,
    plen: u64,
    body_ct_len: nat,
    md5: Seq<u8>,
) -> Seq<u8> {
    match trailer {
        Some(t) => trailer_of(
            t.trailer_key@,
            t.object_key@,
            body_ct_len,
            single_facts(plen, t.mtime_ms, md5, effective_checksum(taken, trailer)),
            Seq::empty(),
        ),
        None => Seq::empty(),
    }
}

/// The verdict on a body and the bytes that waited for it.
pub open spec fn is_verdict(
    held: Seq<u8>,
    body: Seq<u8>,
    expected: Option<[u8; 16]>,
    requested: Option<RequestedChecksum>,
    trailer: Option<SingleTrailer>,
    plen: u64,
    body_ct_len: nat,
    end: Finished,
) -> bool {
    if !md5_agrees(expected, body) {
        end == Finished::Mismatch(DigestMismatch::Md5)
    } else if !checksum_agrees(requested, body) {
        end == Finished::Mismatch(DigestMismatch::Checksum)
    } else if held.len() == 0 {
        end == Finished::NoFinalChunk
    } else {
        let taken = taken_checksum(requested, body);
        end matches Finished::Tail(bytes, digests) && {
            &&& bytes@ == held + appended(trailer, taken, plen, body_ct_len, md5_of(body))
            &&& digests.etag@ == hex_of(md5_of(body))
            &&& checksum_view(digests.checksum) == effective_checksum(taken, trailer)
        }
    }
}

fn copied(checksum: &StoredChecksum) -> (copy: StoredChecksum)
    ensures
        copy@ == checksum@,
{
    let value: Vec<u8> = checksum.value.clone();
    assert(value@ =~= checksum.value@);
    StoredChecksum { algorithm: checksum.algorithm, kind: checksum.kind, value }
}

/// The length that a body is declared to have.
fn body_len_of(body_ct_len: u64, plen: u64, options: &EncryptOptions) -> (len: u64)
    requires
        declared_len(plen as nat, *options) <= u64::MAX,
        body_ct_len == framed(plen as nat, HLEN as nat),
    ensures
        len == declared_len(plen as nat, *options),
{
    match &options.trailer {
        Some(t) => {
            let algorithm: Option<ChecksumAlgorithm> = match &options.checksum {
                Some(r) => Some(r.algorithm),
                None => match &t.checksum {
                    Some(c) => Some(c.algorithm),
                    None => None,
                },
            };
            assert(algorithm == trailer_algorithm(options.checksum, options.trailer));
            body_ct_len + single_trailer_len(algorithm) as u64
        },
        None => body_ct_len,
    }
}

fn same_bytes(a: &[u8], b: &[u8]) -> (same: bool)
    ensures
        same == (a@ == b@),
{
    if a.len() != b.len() {
        return false;
    }
    let mut i: usize = 0;
    while i < a.len()
        invariant
            i <= a@.len() == b@.len(),
            forall|j: int| 0 <= j < i ==> a@[j] == b@[j],
        decreases a@.len() - i,
    {
        if a[i] != b[i] {
            return false;
        }
        i += 1;
    }
    assert(a@ =~= b@);
    true
}

/// Whether a checksum, where one was taken, is the one that was declared, where one was.
spec fn declared_holds(
    requested: Option<RequestedChecksum>,
    taken: Option<StoredChecksum>,
) -> bool {
    match (requested, taken) {
        (Some(r), Some(c)) => r.declared is None || r.declared->0@ == c.value@,
        _ => true,
    }
}

/// What the digests of a body disagree with.
fn disagreement(
    expected: &Option<[u8; 16]>,
    md5: &[u8; 16],
    requested: &Option<RequestedChecksum>,
    taken: &Option<StoredChecksum>,
) -> (why: Option<DigestMismatch>)
    ensures
        match why {
            Some(DigestMismatch::Md5) => expected is Some && expected->0@ != md5@,
            Some(DigestMismatch::Checksum) => {
                &&& expected is Some ==> expected->0@ == md5@
                &&& !declared_holds(*requested, *taken)
            },
            None => {
                &&& expected is Some ==> expected->0@ == md5@
                &&& declared_holds(*requested, *taken)
            },
        },
{
    if let Some(want) = expected {
        if !same_bytes(want, md5) {
            return Some(DigestMismatch::Md5);
        }
    }
    if let Some(r) = requested {
        if let Some(want) = &r.declared {
            if let Some(c) = taken {
                if !same_bytes(want.as_slice(), c.value.as_slice()) {
                    return Some(DigestMismatch::Checksum);
                }
            }
        }
    }
    None
}

/// The checksum of a body that a hasher has been fed.
fn summed(requested: &Option<RequestedChecksum>, hasher: Option<ChecksumHasher>) -> (taken: Option<
    StoredChecksum,
>)
    requires
        requested is Some == hasher is Some,
        requested matches Some(r) ==> sum_code(hasher->0) == algorithm_code(r.algorithm),
    ensures
        requested is Some ==> checksum_view(taken) == taken_checksum(
            *requested,
            sum_fed(hasher->0),
        ) && taken->0.value@.len() == digest_size(requested->0.algorithm),
        requested is None ==> taken is None,
{
    match (requested, hasher) {
        (Some(r), Some(h)) => {
            let value: Vec<u8> = sum_finish(h, r.algorithm);
            StoredChecksum::new(r.algorithm, ChecksumKind::FullObject, value)
        },
        _ => None,
    }
}

/// The verdict on a body, and what is behind it.
fn verdict(
    held: Vec<u8>,
    md5: &[u8; 16],
    taken: Option<StoredChecksum>,
    trailer: Option<SingleTrailer>,
    plen: u64,
    body_ct_len: u64,
) -> (end: Finished)
    ensures
        held@.len() == 0 ==> end == Finished::NoFinalChunk,
        held@.len() > 0 ==> (end matches Finished::Tail(bytes, digests) && {
            &&& bytes@ == held@ + appended(
                trailer,
                checksum_view(taken),
                plen,
                body_ct_len as nat,
                md5@,
            )
            &&& digests.etag@ == hex_of(md5@)
            &&& checksum_view(digests.checksum) == effective_checksum(
                checksum_view(taken),
                trailer,
            )
        }),
{
    let mut tail: Vec<u8> = held;
    if tail.len() == 0 {
        return Finished::NoFinalChunk;
    }
    let carried: Option<StoredChecksum> = match &taken {
        Some(c) => Some(copied(c)),
        None => match &trailer {
            Some(t) => match &t.checksum {
                Some(c) => Some(copied(c)),
                None => None,
            },
            None => None,
        },
    };
    match &trailer {
        Some(t) => {
            let footer = Footer {
                kind: FooterKind::Single,
                count: 1,
                plen,
                mtime_ms: t.mtime_ms,
                md5: *md5,
                checksum: match &carried {
                    Some(c) => Some(copied(c)),
                    None => None,
                },
            };
            let empty: [u64; 0] = [];
            let framing: Vec<u8> = encode_trailer(
                &t.trailer_key,
                t.object_key.as_str(),
                body_ct_len,
                &footer,
                &empty,
            );
            tail.extend_from_slice(framing.as_slice());
            assert(empty@ =~= Seq::empty());
            assert(footer@ == single_facts(
                plen,
                t.mtime_ms,
                md5@,
                effective_checksum(checksum_view(taken), trailer),
            ));
        },
        None => {},
    }
    assert(tail@ =~= held@ + appended(
        trailer,
        checksum_view(taken),
        plen,
        body_ct_len as nat,
        md5@,
    ));
    let etag: String = hex_encode(md5);
    Finished::Tail(tail, ObjectDigests { etag, checksum: carried })
}

// ---- the stream -------------------------------------------------------------------------------

#[derive(Clone, Copy, Debug, PartialEq, Eq, Structural)]
pub enum Stage {
    /// Plaintext goes to the cipher.
    Encrypting,
    /// The plaintext is spent and the cipher writes its last chunk.
    Closing,
    /// The cipher is done: the digest is to be checked.
    Finishing,
    /// The body is over.
    Done,
}

/// Why a body failed.
#[derive(Clone, Copy, Debug, PartialEq, Eq, Structural)]
pub enum Failure {
    Source,
    Cipher,
    /// The cipher stalled with nothing to hand over.
    Stalled,
}

/// What the driver reports.
pub enum Event {
    /// The consumer asks for bytes.
    Polled,
    SourcePending,
    SourceChunk(Vec<u8>),
    SourceFailed,
    SourceEnded,
    /// The cipher accepted that many bytes of what was in flight.
    Wrote(usize),
    WriteFailed,
    /// The cipher waits for its buffer to be drained.
    Stalled,
    Closed,
    CloseFailed,
}

/// What the driver does next.
pub enum Action {
    PollSource,
    /// Write what is in flight to the cipher.
    PollWrite,
    PollClose,
    /// Ask for the verdict.
    Finish,
    /// Hand these bytes to the consumer.
    Yield(Vec<u8>),
    /// The consumer waits for the source.
    Wait,
    /// The consumer is told of a failure.
    Fail(Failure),
    /// The consumer is told that the body is over.
    End,
}

/// Where a body stands.
#[verifier::ext_equal]
pub struct BodyView {
    pub stage: Stage,
    pub source_open: bool,
    /// Plaintext that the source gave and the cipher has not accepted.
    pub inflight: Seq<u8>,
    /// Plaintext that the cipher has accepted.
    pub accepted: Seq<u8>,
    /// Ciphertext that has not been handed over.
    pub held: Seq<u8>,
}

/// An action, with bytes as a sequence.
pub enum ActionView {
    PollSource,
    PollWrite,
    PollClose,
    Finish,
    Yield(Seq<u8>),
    Wait,
    Fail(Failure),
    End,
}

impl View for Action {
    type V = ActionView;

    open spec fn view(&self) -> ActionView {
        match *self {
            Action::PollSource => ActionView::PollSource,
            Action::PollWrite => ActionView::PollWrite,
            Action::PollClose => ActionView::PollClose,
            Action::Finish => ActionView::Finish,
            Action::Yield(bytes) => ActionView::Yield(bytes@),
            Action::Wait => ActionView::Wait,
            Action::Fail(why) => ActionView::Fail(why),
            Action::End => ActionView::End,
        }
    }
}

/// How a body goes on where nothing is being waited for.
pub open spec fn resumed(b: BodyView) -> (BodyView, ActionView) {
    match b.stage {
        Stage::Encrypting => if b.inflight.len() > 0 {
            (b, ActionView::PollWrite)
        } else if b.source_open {
            (b, ActionView::PollSource)
        } else {
            (BodyView { stage: Stage::Closing, ..b }, ActionView::PollClose)
        },
        Stage::Closing => (b, ActionView::PollClose),
        Stage::Finishing => (b, ActionView::Finish),
        Stage::Done => (b, ActionView::End),
    }
}

/// What may be handed over goes out.
pub open spec fn released(b: BodyView) -> (BodyView, ActionView) {
    let n = releasable(b.held) as int;
    (BodyView { held: b.held.skip(n), ..b }, ActionView::Yield(b.held.take(n)))
}

/// A body that has failed is over.
pub open spec fn failed(b: BodyView, why: Failure) -> (BodyView, ActionView) {
    (BodyView { stage: Stage::Done, ..b }, ActionView::Fail(why))
}

/// Which events may be reported when.
pub open spec fn expects(b: BodyView, event: Event) -> bool {
    match event {
        Event::Polled => true,
        Event::SourcePending | Event::SourceChunk(_) | Event::SourceFailed | Event::SourceEnded => {
            b.stage == Stage::Encrypting && b.source_open && b.inflight.len() == 0
        },
        Event::Wrote(n) => b.stage == Stage::Encrypting && n <= b.inflight.len(),
        Event::WriteFailed => b.stage == Stage::Encrypting,
        Event::Stalled => b.stage == Stage::Encrypting || b.stage == Stage::Closing,
        Event::Closed | Event::CloseFailed => b.stage == Stage::Closing,
    }
}

/// One step of a body.
pub open spec fn stepped(b: BodyView, event: Event) -> (BodyView, ActionView) {
    match event {
        Event::Polled => resumed(b),
        // A partial chunk waits: it belongs with what follows it.
        Event::SourcePending => if releasable(b.held) >= CHUNK_CIPHERTEXT {
            released(b)
        } else {
            (b, ActionView::Wait)
        },
        Event::SourceChunk(chunk) => (
            BodyView { inflight: chunk@, ..b },
            ActionView::PollWrite,
        ),
        Event::SourceFailed => failed(b, Failure::Source),
        Event::SourceEnded => resumed(
            BodyView { source_open: false, stage: Stage::Closing, ..b },
        ),
        Event::Wrote(n) => resumed(
            BodyView {
                accepted: b.accepted + b.inflight.take(n as int),
                inflight: b.inflight.skip(n as int),
                ..b
            },
        ),
        Event::WriteFailed | Event::CloseFailed => failed(b, Failure::Cipher),
        Event::Stalled => if releasable(b.held) > 0 {
            released(b)
        } else {
            failed(b, Failure::Stalled)
        },
        Event::Closed => resumed(BodyView { stage: Stage::Finishing, ..b }),
    }
}

pub struct EncryptStream {
    stage: Stage,
    source_open: bool,
    inflight: Vec<u8>,
    hasher: Md5Stream,
    expected_md5: Option<[u8; 16]>,
    checksum: Option<RequestedChecksum>,
    summing: Option<ChecksumHasher>,
    trailer: Option<SingleTrailer>,
    plen: u64,
    body_ct_len: u64,
}

impl EncryptStream {
    /// Where the body stands, with what its buffer holds.
    pub closed spec fn view(&self, held: Seq<u8>) -> BodyView {
        BodyView {
            stage: self.stage,
            source_open: self.source_open,
            inflight: self.inflight@,
            accepted: md5_fed(self.hasher),
            held,
        }
    }

    pub closed spec fn expected_md5(&self) -> Option<[u8; 16]> {
        self.expected_md5
    }

    pub closed spec fn checksum(&self) -> Option<RequestedChecksum> {
        self.checksum
    }

    /// Until the body is over, the checksum that was asked for is taken of what the cipher accepted.
    pub closed spec fn wf(&self) -> bool {
        self.stage == Stage::Done || match (self.checksum, self.summing) {
            (Some(r), Some(h)) => sum_code(h) == algorithm_code(r.algorithm) && sum_fed(h)
                == md5_fed(self.hasher),
            (None, None) => true,
            _ => false,
        }
    }

    pub closed spec fn trailer(&self) -> Option<SingleTrailer> {
        self.trailer
    }

    pub closed spec fn plen(&self) -> u64 {
        self.plen
    }

    pub closed spec fn body_ct_len(&self) -> u64 {
        self.body_ct_len
    }

    /// What a step leaves alone.
    pub open spec fn same_terms(&self, other: &EncryptStream) -> bool {
        &&& self.expected_md5() == other.expected_md5()
        &&& self.checksum() == other.checksum()
        &&& self.trailer() == other.trailer()
        &&& self.plen() == other.plen()
        &&& self.body_ct_len() == other.body_ct_len()
    }

    /// The body of `plen` plaintext bytes, and the length that it will have.
    pub fn open(plen: u64, options: EncryptOptions) -> (opened: (u64, EncryptStream))
        requires
            declared_len(plen as nat, options) <= u64::MAX,
        ensures
            opened.0 == declared_len(plen as nat, options),
            opened.1.plen() == plen,
            opened.1.body_ct_len() == framed(plen as nat, HLEN as nat),
            opened.1.expected_md5() == options.expected_md5,
            opened.1.checksum() == options.checksum,
            opened.1.trailer() == options.trailer,
            opened.1.wf(),
            forall|held: Seq<u8>| #[trigger]
                opened.1.view(held) == (BodyView {
                    stage: Stage::Encrypting,
                    source_open: true,
                    inflight: Seq::empty(),
                    accepted: Seq::empty(),
                    held,
                }),
    {
        let body_ct_len: u64 = ciphertext_len(plen, HLEN);
        let body_len: u64 = body_len_of(body_ct_len, plen, &options);
        let summing: Option<ChecksumHasher> = match &options.checksum {
            Some(r) => Some(sum_start(r.algorithm)),
            None => None,
        };
        let stream = EncryptStream {
            stage: Stage::Encrypting,
            source_open: true,
            inflight: Vec::new(),
            hasher: md5_start(),
            expected_md5: options.expected_md5,
            checksum: options.checksum,
            summing,
            trailer: options.trailer,
            plen,
            body_ct_len,
        };
        (body_len, stream)
    }

    /// What is to be written to the cipher.
    pub fn inflight(&self) -> (bytes: &Vec<u8>)
        ensures
            forall|held: Seq<u8>| bytes@ == (#[trigger] self.view(held)).inflight,
    {
        &self.inflight
    }

    fn resume(&mut self) -> (action: Action)
        ensures
            old(self).wf() ==> final(self).wf(),
            forall|held: Seq<u8>|
                resumed(#[trigger] old(self).view(held)) == (final(self).view(held), action@),
            final(self).same_terms(old(self)),
    {
        match self.stage {
            Stage::Encrypting => if self.inflight.len() > 0 {
                Action::PollWrite
            } else if self.source_open {
                Action::PollSource
            } else {
                self.stage = Stage::Closing;
                Action::PollClose
            },
            Stage::Closing => Action::PollClose,
            Stage::Finishing => Action::Finish,
            Stage::Done => Action::End,
        }
    }

    /// Takes in what came of the last action and says what comes next.
    pub fn step(&mut self, gate: &mut CipherGate, event: Event) -> (action: Action)
        requires
            old(self).wf(),
            expects(old(self).view(old(gate)@), event),
        ensures
            final(self).wf(),
            stepped(old(self).view(old(gate)@), event) == (
                final(self).view(final(gate)@),
                action@,
            ),
            final(self).same_terms(old(self)),
    {
        let ghost before = self.view(gate@);
        match event {
            Event::Polled => self.resume(),
            Event::SourcePending => {
                if gate.is_full() {
                    self.release(gate)
                } else {
                    Action::Wait
                }
            },
            Event::SourceChunk(chunk) => {
                self.inflight = chunk;
                Action::PollWrite
            },
            Event::SourceFailed => {
                self.stage = Stage::Done;
                Action::Fail(Failure::Source)
            },
            Event::SourceEnded => {
                self.source_open = false;
                self.stage = Stage::Closing;
                assert(self.view(gate@) =~= (BodyView {
                    source_open: false,
                    stage: Stage::Closing,
                    ..before
                }));
                self.resume()
            },
            Event::Wrote(n) => {
                md5_update(&mut self.hasher, slice_subrange(self.inflight.as_slice(), 0, n));
                if let Some(sum) = &mut self.summing {
                    sum_update(sum, slice_subrange(self.inflight.as_slice(), 0, n));
                }
                let rest: Vec<u8> = self.inflight.split_off(n);
                self.inflight = rest;
                assert(before.inflight.subrange(0, n as int) =~= before.inflight.take(n as int));
                assert(before.inflight.subrange(n as int, before.inflight.len() as int)
                    =~= before.inflight.skip(n as int));
                assert(self.view(gate@) =~= (BodyView {
                    accepted: before.accepted + before.inflight.take(n as int),
                    inflight: before.inflight.skip(n as int),
                    ..before
                }));
                self.resume()
            },
            Event::WriteFailed => {
                self.stage = Stage::Done;
                Action::Fail(Failure::Cipher)
            },
            Event::CloseFailed => {
                self.stage = Stage::Done;
                Action::Fail(Failure::Cipher)
            },
            Event::Stalled => self.release(gate),
            Event::Closed => {
                self.stage = Stage::Finishing;
                assert(self.view(gate@) =~= (BodyView { stage: Stage::Finishing, ..before }));
                self.resume()
            },
        }
    }

    /// Hands over what may be; where that is nothing, the cipher has stalled for good.
    fn release(&mut self, gate: &mut CipherGate) -> (action: Action)
        ensures
            old(self).wf() ==> final(self).wf(),
            releasable(old(gate)@) > 0 ==> released(old(self).view(old(gate)@)) == (
                final(self).view(final(gate)@),
                action@,
            ),
            releasable(old(gate)@) == 0 ==> failed(old(self).view(old(gate)@), Failure::Stalled) == (
                final(self).view(final(gate)@),
                action@,
            ),
            final(self).same_terms(old(self)),
    {
        match gate.take_released() {
            Some(out) => Action::Yield(out),
            None => {
                self.stage = Stage::Done;
                Action::Fail(Failure::Stalled)
            },
        }
    }

    /// The verdict on the body, and the bytes that it held back: the cipher's last chunk, and the
    /// trailer, so that the object's facts land with its body.
    pub fn finish(&mut self, gate: &mut CipherGate) -> (end: Finished)
        requires
            old(self).wf(),
            old(self).view(old(gate)@).stage == Stage::Finishing,
        ensures
            final(self).wf(),
            is_verdict(
                old(gate)@,
                old(self).view(old(gate)@).accepted,
                old(self).expected_md5(),
                old(self).checksum(),
                old(self).trailer(),
                old(self).plen(),
                old(self).body_ct_len() as nat,
                end,
            ),
            end matches Finished::Tail(bytes, _) ==> stamped_soundly(old(self).trailer())
                ==> bytes@.len() == old(gate)@.len() + tail_len(
                old(self).checksum(),
                old(self).trailer(),
            ),
            final(self).view(final(gate)@).stage == Stage::Done,
    {
        let ghost body = md5_fed(self.hasher);
        self.stage = Stage::Done;
        let md5: [u8; 16] = md5_finish(&mut self.hasher);
        let mut summing: Option<ChecksumHasher> = None;
        std::mem::swap(&mut self.summing, &mut summing);
        let taken: Option<StoredChecksum> = summed(&self.checksum, summing);
        assert(checksum_view(taken) == taken_checksum(self.checksum, body));
        if let Some(why) = disagreement(&self.expected_md5, &md5, &self.checksum, &taken) {
            return Finished::Mismatch(why);
        }
        let held: Vec<u8> = gate.take_all();
        let mut trailer: Option<SingleTrailer> = None;
        std::mem::swap(&mut self.trailer, &mut trailer);
        proof {
            lemma_appended_len(
                self.checksum,
                trailer,
                checksum_view(taken),
                self.plen,
                self.body_ct_len as nat,
                md5@,
            );
        }
        verdict(held, &md5, taken, trailer, self.plen, self.body_ct_len)
    }
}

// ---- whole bodies -----------------------------------------------------------------------------

/// A body that was encrypted whole, and the length that it was declared to have.
pub struct EncryptedBody {
    pub len: u64,
    pub body: Vec<u8>,
    pub digests: ObjectDigests,
}

/// Why a whole body was not encrypted.
pub enum SealError {
    Envelope(Error),
    Mismatch(DigestMismatch),
}

/// Encrypts a plaintext, with its trailer behind it where one is wanted.  The digests that the
/// client declared are checked against the plaintext.
pub fn encrypt_blob_with_etag(env: &Envelope, plaintext: &[u8], options: EncryptOptions) -> (sealed:
    Result<EncryptedBody, SealError>)
    requires
        declared_len(plaintext@.len(), options) <= u64::MAX,
        plaintext@.len() <= u64::MAX,
    ensures
        match sealed {
            Ok(b) => {
                let taken = taken_checksum(options.checksum, plaintext@);
                &&& b.len == declared_len(plaintext@.len(), options)
                &&& stamped_soundly(options.trailer) ==> b.body@.len() == b.len
                &&& md5_agrees(options.expected_md5, plaintext@)
                &&& checksum_agrees(options.checksum, plaintext@)
                &&& b.digests.etag@ == hex_of(md5_of(plaintext@))
                &&& checksum_view(b.digests.checksum) == effective_checksum(taken, options.trailer)
                &&& exists|file: Seq<u8>| #[trigger]
                    age_opened(env@, PINNED_WORK_FACTOR, file) == Some(plaintext@) && file.len()
                        == framed(plaintext@.len(), HLEN as nat) && b.body@ == file + appended(
                        options.trailer,
                        taken,
                        plaintext@.len() as u64,
                        file.len(),
                        md5_of(plaintext@),
                    )
                &&& options.trailer is Some && stamped_soundly(options.trailer) ==> forall|
                    tail: TailView,
                |
                    #[trigger]
                    opens(
                        options.trailer->0.trailer_key@,
                        options.trailer->0.object_key@,
                        b.len,
                        b.body@,
                        tail,
                    ) ==> {
                        &&& tail.footer.kind is Single
                        &&& tail.footer.count == 1
                        &&& tail.footer.plen == plaintext@.len()
                        &&& tail.footer.mtime_ms == options.trailer->0.mtime_ms
                        &&& tail.footer.md5 == md5_of(plaintext@)
                        &&& tail.footer.checksum == checksum_view(b.digests.checksum)
                    }
            },
            Err(SealError::Mismatch(DigestMismatch::Md5)) => !md5_agrees(
                options.expected_md5,
                plaintext@,
            ),
            Err(SealError::Mismatch(DigestMismatch::Checksum)) => {
                &&& md5_agrees(options.expected_md5, plaintext@)
                &&& !checksum_agrees(options.checksum, plaintext@)
            },
            Err(SealError::Envelope(_)) => false,
        },
{
    let plen: u64 = plaintext.len() as u64;
    let body_ct_len: u64 = ciphertext_len(plen, HLEN);
    let len: u64 = body_len_of(body_ct_len, plen, &options);
    let file: Vec<u8> = match env.encrypt(plaintext) {
        Ok(file) => file,
        Err(e) => {
            return Err(SealError::Envelope(e));
        },
    };
    let md5: [u8; 16] = md5_digest(plaintext);
    let summing: Option<ChecksumHasher> = match &options.checksum {
        Some(r) => {
            let mut sum: ChecksumHasher = sum_start(r.algorithm);
            sum_update(&mut sum, plaintext);
            assert(Seq::<u8>::empty() + plaintext@ =~= plaintext@);
            Some(sum)
        },
        None => None,
    };
    let taken: Option<StoredChecksum> = summed(&options.checksum, summing);
    assert(checksum_view(taken) == taken_checksum(options.checksum, plaintext@));
    if let Some(why) = disagreement(&options.expected_md5, &md5, &options.checksum, &taken) {
        return Err(SealError::Mismatch(why));
    }
    let ghost sealed = file@;
    assert(age_opened(env@, PINNED_WORK_FACTOR, sealed) == Some(plaintext@));
    proof {
        lemma_appended_len(
            options.checksum,
            options.trailer,
            checksum_view(taken),
            plen,
            body_ct_len as nat,
            md5@,
        );
    }
    let ghost trailer = options.trailer;
    let ghost requested = options.checksum;
    let ghost expected = options.expected_md5;
    match verdict(file, &md5, taken, options.trailer, plen, body_ct_len) {
        Finished::Tail(body, digests) => {
            proof {
                if trailer is Some && stamped_soundly(trailer) {
                    let t = trailer->0;
                    let none = Seq::<u8>::empty();
                    assert(none + body@ =~= body@);
                    assert forall|tail: TailView| #[trigger]
                        opens(t.trailer_key@, t.object_key@, len, body@, tail) implies {
                        &&& tail.footer.kind is Single
                        &&& tail.footer.count == 1
                        &&& tail.footer.plen == plaintext@.len()
                        &&& tail.footer.mtime_ms == t.mtime_ms
                        &&& tail.footer.md5 == md5_of(plaintext@)
                        &&& tail.footer.checksum == checksum_view(digests.checksum)
                    } by {
                        a_framed_body_opens_to_its_own_facts(
                            none,
                            sealed,
                            plaintext@,
                            expected,
                            requested,
                            t,
                            plen,
                            body,
                            digests,
                            len,
                            tail,
                        );
                    }
                }
            }
            Ok(EncryptedBody { len, body, digests })
        },
        Finished::Mismatch(why) => Err(SealError::Mismatch(why)),
        Finished::NoFinalChunk => {
            assert(false);
            Err(SealError::Mismatch(DigestMismatch::Md5))
        },
    }
}

/// Encrypts a plaintext into its framed single-part form, and says how long that is.
pub fn encrypt_stream(env: &Envelope, plaintext: &[u8], trailer: SingleTrailer) -> (sealed: Result<
    (u64, Vec<u8>),
    SealError,
>)
    requires
        declared_len(
            plaintext@.len(),
            (EncryptOptions { trailer: Some(trailer), expected_md5: None, checksum: None }),
        ) <= u64::MAX,
        plaintext@.len() <= u64::MAX,
    ensures
        match sealed {
            Ok(b) => {
                &&& b.0 == declared_len(
                    plaintext@.len(),
                    (EncryptOptions { trailer: Some(trailer), expected_md5: None, checksum: None }),
                )
                &&& stamped_soundly(Some(trailer)) ==> b.1@.len() == b.0
                &&& exists|file: Seq<u8>| #[trigger]
                    age_opened(env@, PINNED_WORK_FACTOR, file) == Some(plaintext@) && file.len()
                        == framed(plaintext@.len(), HLEN as nat) && b.1@ == file + appended(
                        Some(trailer),
                        None,
                        plaintext@.len() as u64,
                        file.len(),
                        md5_of(plaintext@),
                    )
                &&& stamped_soundly(Some(trailer)) ==> forall|tail: TailView| #[trigger]
                    opens(trailer.trailer_key@, trailer.object_key@, b.0, b.1@, tail) ==> {
                        &&& tail.footer.kind is Single
                        &&& tail.footer.count == 1
                        &&& tail.footer.plen == plaintext@.len()
                        &&& tail.footer.mtime_ms == trailer.mtime_ms
                        &&& tail.footer.md5 == md5_of(plaintext@)
                        &&& trailer.checksum is Some ==> tail.footer.checksum == Some(
                            trailer.checksum->0@,
                        )
                        &&& trailer.checksum is None ==> tail.footer.checksum is None
                    }
            },
            Err(_) => false,
        },
{
    let options = EncryptOptions { trailer: Some(trailer), expected_md5: None, checksum: None };
    match encrypt_blob_with_etag(env, plaintext, options) {
        Ok(b) => Ok((b.len, b.body)),
        Err(e) => Err(e),
    }
}

// ---- laws -------------------------------------------------------------------------------------

/// What stands behind the ciphertext is as long as it was counted to be.
proof fn lemma_appended_len(
    requested: Option<RequestedChecksum>,
    trailer: Option<SingleTrailer>,
    taken: Option<ChecksumView>,
    plen: u64,
    body_ct_len: nat,
    md5: Seq<u8>,
)
    requires
        md5.len() == 16,
        requested is Some == taken is Some,
        taken matches Some(c) ==> c.algorithm == requested->0.algorithm && c.value.len()
            == digest_size(c.algorithm),
    ensures
        stamped_soundly(trailer) ==> appended(trailer, taken, plen, body_ct_len, md5).len()
            == tail_len(requested, trailer),
{
    if stamped_soundly(trailer) {
        if let Some(t) = trailer {
            a_single_trailer_has_its_declared_length(
                t.trailer_key@,
                t.object_key@,
                body_ct_len,
                single_facts(plen, t.mtime_ms, md5, effective_checksum(taken, trailer)),
            );
        }
    }
}

/// A body that ends well is exactly as long as it was declared to be: what was handed over before
/// the verdict, the tail, and nothing else.
pub proof fn a_body_is_as_long_as_declared(
    ops: Seq<GateOp>,
    options: EncryptOptions,
    taken: Option<ChecksumView>,
    plen: u64,
    md5: Seq<u8>,
)
    requires
        passage(ops).taken.len() == framed(plen as nat, HLEN as nat),
        md5.len() == 16,
        options.checksum is Some == taken is Some,
        taken matches Some(c) ==> c.algorithm == options.checksum->0.algorithm && c.value.len()
            == digest_size(c.algorithm),
        stamped_soundly(options.trailer),
    ensures
        passage(ops).emitted.len() + (passage(ops).held + appended(
            options.trailer,
            taken,
            plen,
            framed(plen as nat, HLEN as nat),
            md5,
        )).len() == declared_len(plen as nat, options),
{
    the_passage_keeps_every_byte(ops);
    lemma_appended_len(
        options.checksum,
        options.trailer,
        taken,
        plen,
        framed(plen as nat, HLEN as nat),
        md5,
    );
}

/// Where the digest disagrees, the body ends short of its declared length, and short even of the
/// age file: what was handed over before the verdict is less than the ciphertext.
pub proof fn a_mismatched_body_ends_short(ops: Seq<GateOp>, plen: u64, options: EncryptOptions)
    requires
        passage(ops).taken.len() <= framed(plen as nat, HLEN as nat),
    ensures
        passage(ops).emitted.len() < framed(plen as nat, HLEN as nat),
        passage(ops).emitted.len() < declared_len(plen as nat, options),
{
    the_passage_keeps_every_byte(ops);
    if passage(ops).taken.len() > 0 {
        the_passage_stays_short(ops);
    }
}

/// A framed body opens: its trailer authenticates, and gives back the facts that were stamped.
pub proof fn a_framed_body_opens(
    file: Seq<u8>,
    trailer: SingleTrailer,
    taken: Option<ChecksumView>,
    plen: u64,
    md5: Seq<u8>,
    object_len: u64,
)
    requires
        md5.len() == 16,
        taken matches Some(c) ==> c.value.len() == digest_size(c.algorithm),
        stamped_soundly(Some(trailer)),
        file.len() <= u64::MAX,
        (file + appended(Some(trailer), taken, plen, file.len(), md5)).len() == object_len,
    ensures
        opens(
            trailer.trailer_key@,
            trailer.object_key@,
            object_len,
            file + appended(Some(trailer), taken, plen, file.len(), md5),
            TailView {
                footer: single_facts(
                    plen,
                    trailer.mtime_ms,
                    md5,
                    effective_checksum(taken, Some(trailer)),
                ),
                ends: Seq::empty(),
                plens: Seq::empty(),
                body_ct_len: file.len() as u64,
            },
        ),
{
    let t = TailView {
        footer: single_facts(
            plen,
            trailer.mtime_ms,
            md5,
            effective_checksum(taken, Some(trailer)),
        ),
        ends: Seq::empty(),
        plens: Seq::empty(),
        body_ct_len: file.len() as u64,
    };
    a_sealed_object_opens(trailer.trailer_key@, trailer.object_key@, object_len, file, t);
}

/// What a verdict lets through is what was asked for: the body has the MD5 and the checksum that the
/// client declared, its object opens under its key and name, and the one footer that it opens to is
/// that of a single part with the plaintext's length, the time that the trailer was given, the MD5 of
/// the body, and the checksum of the body, or the one that was given beforehand.
pub proof fn a_framed_body_opens_to_its_own_facts(
    emitted: Seq<u8>,
    held: Seq<u8>,
    body: Seq<u8>,
    expected: Option<[u8; 16]>,
    requested: Option<RequestedChecksum>,
    trailer: SingleTrailer,
    plen: u64,
    bytes: Vec<u8>,
    digests: ObjectDigests,
    object_len: u64,
    t: TailView,
)
    requires
        is_verdict(
            held,
            body,
            expected,
            requested,
            Some(trailer),
            plen,
            emitted.len() + held.len(),
            Finished::Tail(bytes, digests),
        ),
        md5_of(body).len() == 16,
        requested matches Some(r) ==> checksum_of(algorithm_code(r.algorithm), body).len()
            == digest_size(r.algorithm),
        stamped_soundly(Some(trailer)),
        (emitted + bytes@).len() == object_len,
    ensures
        expected matches Some(e) ==> e@ == md5_of(body),
        requested matches Some(r) ==> (r.declared matches Some(d) ==> d@ == checksum_of(
            algorithm_code(r.algorithm),
            body,
        )),
        held.is_prefix_of(bytes@),
        digests.etag@ == hex_of(md5_of(body)),
        exists|some: TailView| #[trigger]
            opens(
                trailer.trailer_key@,
                trailer.object_key@,
                object_len,
                emitted + bytes@,
                some,
            ),
        opens(trailer.trailer_key@, trailer.object_key@, object_len, emitted + bytes@, t) ==> {
            &&& t.footer.kind is Single
            &&& t.footer.count == 1
            &&& t.footer.plen == plen
            &&& t.footer.mtime_ms == trailer.mtime_ms
            &&& t.footer.md5 == md5_of(body)
            &&& requested matches Some(r) ==> (t.footer.checksum matches Some(c) && c.algorithm
                == r.algorithm && c.kind == ChecksumKind::FullObject && c.value == checksum_of(
                algorithm_code(r.algorithm),
                body,
            ))
            &&& requested is None ==> t.footer.checksum == (match trailer.checksum {
                Some(c) => Some(c@),
                None => None,
            })
            &&& t.footer.checksum == (match digests.checksum {
                Some(c) => Some(c@),
                None => None,
            })
            &&& t.body_ct_len == emitted.len() + held.len()
            &&& t.ends.len() == 0
        },
{
    let taken = taken_checksum(requested, body);
    let file = emitted + held;
    let md5 = md5_of(body);
    let framing = appended(Some(trailer), taken, plen, file.len(), md5);
    assert(emitted + bytes@ =~= file + framing);
    assert(bytes@.subrange(0, held.len() as int) =~= held);
    a_framed_body_opens(file, trailer, taken, plen, md5, object_len);
    let known = TailView {
        footer: single_facts(
            plen,
            trailer.mtime_ms,
            md5,
            effective_checksum(taken, Some(trailer)),
        ),
        ends: Seq::empty(),
        plens: Seq::empty(),
        body_ct_len: file.len() as u64,
    };
    if opens(trailer.trailer_key@, trailer.object_key@, object_len, emitted + bytes@, t) {
        a_tail_opens_one_way(
            trailer.trailer_key@,
            trailer.object_key@,
            object_len,
            emitted + bytes@,
            t,
            known,
        );
    }
}

/// A verdict refuses a body exactly where a digest that was declared is not the body's own, the MD5
/// first; and it lets every other body go that the cipher has ended.
pub proof fn only_a_declared_digest_refuses_a_body(
    held: Seq<u8>,
    body: Seq<u8>,
    expected: Option<[u8; 16]>,
    requested: Option<RequestedChecksum>,
    trailer: Option<SingleTrailer>,
    plen: u64,
    body_ct_len: nat,
    end: Finished,
)
    requires
        is_verdict(held, body, expected, requested, trailer, plen, body_ct_len, end),
    ensures
        ({
            let md5_differs = expected is Some && expected->0@ != md5_of(body);
            let sum_differs = requested is Some && requested->0.declared is Some
                && requested->0.declared->0@ != checksum_of(
                algorithm_code(requested->0.algorithm),
                body,
            );
            &&& md5_differs <==> end == Finished::Mismatch(DigestMismatch::Md5)
            &&& !md5_differs && sum_differs <==> end == Finished::Mismatch(DigestMismatch::Checksum)
            &&& !md5_differs && !sum_differs && held.len() > 0 <==> end is Tail
            &&& !md5_differs && !sum_differs && held.len() == 0 <==> end is NoFinalChunk
        }),
{
}

/// A body without a trailer is handed over as the cipher wrote it, with nothing behind it.
pub proof fn a_bare_body_has_nothing_behind_it(
    held: Seq<u8>,
    body: Seq<u8>,
    expected: Option<[u8; 16]>,
    requested: Option<RequestedChecksum>,
    plen: u64,
    body_ct_len: nat,
    bytes: Vec<u8>,
    digests: ObjectDigests,
)
    requires
        is_verdict(
            held,
            body,
            expected,
            requested,
            None,
            plen,
            body_ct_len,
            Finished::Tail(bytes, digests),
        ),
    ensures
        bytes@ == held,
        digests.etag@ == hex_of(md5_of(body)),
        match requested {
            Some(r) => digests.checksum matches Some(c) && c@.algorithm == r.algorithm && c@.value
                == checksum_of(algorithm_code(r.algorithm), body),
            None => digests.checksum is None,
        },
{
    assert(held + Seq::<u8>::empty() =~= held);
}

/// A body goes through its stages in order, each for its own reason: it closes when the source has
/// ended, it is judged when the cipher has closed, and before that it is over only by a failure.  A
/// source that has ended is not asked again, and what is in flight is written before the source is
/// asked for more.
pub proof fn a_body_goes_through_its_stages_in_order(b: BodyView, event: Event)
    requires
        expects(b, event),
        b.stage == Stage::Encrypting ==> b.source_open,
    ensures
        ({
            let (next, action) = stepped(b, event);
            &&& next.stage == Stage::Encrypting ==> next.source_open
            &&& match (b.stage, event) {
                (Stage::Encrypting, Event::SourceEnded) => next.stage == Stage::Closing
                    && action is PollClose,
                (Stage::Encrypting, Event::SourceFailed) => next.stage == Stage::Done && action
                    == ActionView::Fail(Failure::Source),
                (Stage::Encrypting, Event::WriteFailed) => next.stage == Stage::Done && action
                    == ActionView::Fail(Failure::Cipher),
                (Stage::Closing, Event::CloseFailed) => next.stage == Stage::Done && action
                    == ActionView::Fail(Failure::Cipher),
                (Stage::Closing, Event::Closed) => next.stage == Stage::Finishing
                    && action is Finish,
                (_, Event::Stalled) => (next.stage == b.stage && action is Yield) || (next.stage
                    == Stage::Done && action == ActionView::Fail(Failure::Stalled) && b.held.len()
                    <= 1),
                _ => next.stage == b.stage,
            }
            &&& action is PollSource ==> next.stage == Stage::Encrypting && next.inflight.len() == 0
            &&& action is PollWrite ==> next.stage == Stage::Encrypting
            &&& action is PollClose ==> next.stage == Stage::Closing
            &&& action is Finish ==> next.stage == Stage::Finishing
            &&& action is End ==> b.stage == Stage::Done
            &&& b.stage == Stage::Done && event is Polled ==> action is End
            &&& b.stage == Stage::Encrypting && event is Polled && b.inflight.len() > 0
                ==> action is PollWrite
            &&& b.stage == Stage::Encrypting && event is Polled && b.inflight.len() == 0
                ==> action is PollSource
        }),
{
}

/// While the source keeps a body waiting, what is held goes out where it is a whole chunk and more,
/// and waits else.
pub proof fn a_waiting_body_hands_over_whole_chunks(b: BodyView)
    ensures
        b.held.len() > CHUNK_CIPHERTEXT ==> stepped(b, Event::SourcePending).1 is Yield,
        b.held.len() <= CHUNK_CIPHERTEXT ==> stepped(b, Event::SourcePending) == (
            b,
            ActionView::Wait,
        ),
{
}

/// A stream driven by the cipher's own stalls never fails for want of bytes: a write that the
/// buffer refused finds something to hand over, and the body goes on.
pub proof fn a_stalled_cipher_is_drained(b: BodyView, n: nat)
    requires
        !admits(b.held, n),
    ensures
        stepped(b, Event::Stalled) == released(b),
        stepped(b, Event::Stalled).0.stage == b.stage,
        admits(stepped(b, Event::Stalled).0.held, n),
{
}

/// Until the verdict a step emits only ciphertext from the front of what is held, and it never
/// hands over the last byte.
pub proof fn a_step_emits_held_ciphertext_in_order(b: BodyView, event: Event)
    ensures
        ({
            let (next, action) = stepped(b, event);
            match action {
                ActionView::Yield(bytes) => {
                    &&& b.held == bytes + next.held
                    &&& b.held.len() > 0 ==> next.held.len() > 0
                },
                _ => next.held == b.held,
            }
        }),
{
    let n = releasable(b.held) as int;
    assert(b.held =~= b.held.take(n) + b.held.skip(n));
}

/// Every plaintext byte goes to the cipher once and in order: what was accepted and what is in
/// flight are, one after the other, what the source gave.
pub proof fn a_step_keeps_the_plaintext(b: BodyView, event: Event)
    requires
        expects(b, event),
    ensures
        ({
            let next = stepped(b, event).0;
            next.accepted + next.inflight == b.accepted + b.inflight + (match event {
                Event::SourceChunk(chunk) => chunk@,
                _ => Seq::empty(),
            })
        }),
{
    let next = stepped(b, event).0;
    match event {
        Event::Wrote(n) => {
            assert(b.inflight =~= b.inflight.take(n as int) + b.inflight.skip(n as int));
            assert(next.accepted + next.inflight =~= b.accepted + b.inflight);
        },
        _ => {},
    }
    assert(next.accepted + next.inflight =~= b.accepted + b.inflight + (match event {
        Event::SourceChunk(chunk) => chunk@,
        _ => Seq::empty(),
    }));
}

/// What is said of a step of a body is said of the step itself.
pub proof fn a_step_of_a_body_is_seen_as_it_is(x: Action)
    ensures
        x is PollSource <==> x@ is PollSource,
        x is PollWrite <==> x@ is PollWrite,
        x is PollClose <==> x@ is PollClose,
        x is Finish <==> x@ is Finish,
        x is Yield <==> x@ is Yield,
        x is Yield ==> x@->Yield_0 == x->Yield_0@,
        x is Wait <==> x@ is Wait,
        x is Fail <==> x@ is Fail,
        x is Fail ==> x@->Fail_0 == x->Fail_0,
        x is End <==> x@ is End,
{
}

/// Whatever a body asks for, each answer to it is expected: of the source, of the cipher for any of what
/// it was offered, and of the cipher's end.
pub proof fn what_is_asked_for_is_expected(b: BodyView, event: Event, chunk: Vec<u8>, n: usize)
    requires
        expects(b, event),
        b.stage == Stage::Encrypting ==> b.source_open,
    ensures
        ({
            let (next, action) = stepped(b, event);
            &&& expects(next, Event::Polled)
            &&& action is PollSource ==> expects(next, Event::SourcePending) && expects(
                next,
                Event::SourceChunk(chunk),
            ) && expects(next, Event::SourceFailed) && expects(next, Event::SourceEnded)
            &&& action is PollWrite && n <= next.inflight.len() ==> expects(next, Event::Wrote(n))
            &&& action is PollWrite ==> expects(next, Event::WriteFailed) && expects(
                next,
                Event::Stalled,
            )
            &&& action is PollClose ==> expects(next, Event::Closed) && expects(
                next,
                Event::CloseFailed,
            ) && expects(next, Event::Stalled)
        }),
{
}

/// A body is declared as long as its file and, where it has a trailer, as the trailer's fixed fields and
/// the checksum in it: the one that is asked for, or else the one that is stamped.
pub proof fn a_declared_length_counts_the_trailer(plen: nat, options: EncryptOptions)
    ensures
        options.trailer is None ==> declared_len(plen, options) == framed(plen, 149),
        options.trailer is Some && options.checksum is Some ==> declared_len(plen, options)
            == framed(plen, 149) + 56 + digest_size(options.checksum->0.algorithm),
        options.trailer is Some && options.checksum is None && options.trailer->0.checksum is Some
            ==> declared_len(plen, options) == framed(plen, 149) + 56 + digest_size(
            options.trailer->0.checksum->0.algorithm,
        ),
        options.trailer is Some && options.checksum is None && options.trailer->0.checksum is None
            ==> declared_len(plen, options) == framed(plen, 149) + 56,
{
}

/// A checksum is taken of the whole body by the algorithm that is asked for, and goes before one that is
/// stamped; a digest that is declared has to be the body's own, and one that is not declared refuses
/// nothing.
pub proof fn digests_are_those_of_the_body(
    expected: Option<[u8; 16]>,
    requested: Option<RequestedChecksum>,
    trailer: Option<SingleTrailer>,
    body: Seq<u8>,
)
    ensures
        expected is None ==> md5_agrees(expected, body),
        expected is Some ==> (md5_agrees(expected, body) <==> expected->0@ == md5_of(body)),
        requested is None || requested->0.declared is None ==> checksum_agrees(requested, body),
        requested is Some && requested->0.declared is Some ==> (checksum_agrees(requested, body)
            <==> requested->0.declared->0@ == checksum_of(
            algorithm_code(requested->0.algorithm),
            body,
        )),
        requested is None ==> taken_checksum(requested, body) is None,
        requested is Some ==> ({
            let taken = taken_checksum(requested, body);
            &&& taken is Some
            &&& taken->0.algorithm == requested->0.algorithm
            &&& taken->0.kind == ChecksumKind::FullObject
            &&& taken->0.value == checksum_of(algorithm_code(requested->0.algorithm), body)
            &&& effective_checksum(taken, trailer) == taken
        }),
        trailer is None ==> effective_checksum(None, trailer) is None,
        trailer is Some && trailer->0.checksum is Some ==> effective_checksum(None, trailer) == Some(
            trailer->0.checksum->0@,
        ),
        trailer is Some && trailer->0.checksum is None ==> effective_checksum(None, trailer) is None,
        stamped_soundly(trailer) <==> (trailer is Some && trailer->0.checksum is Some
            ==> trailer->0.checksum->0.value@.len() == digest_size(
            trailer->0.checksum->0.algorithm,
        )),
{
}

} // verus!
