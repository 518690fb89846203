//! Reading encrypted bodies: whole objects, composites off one body, and ranges of either.

use crate::error::Error;
use crate::format::envelope::{age_opened, Envelope, PINNED_WORK_FACTOR};
use crate::text::{decimal, push_decimal};
use core::ops::Range;
use vstd::prelude::*;
use vstd::slice::slice_subrange;

verus! {

// ---- whole bodies -----------------------------------------------------------------------------

/// The bytes of a body from `start` on, `len` of them or as many as there are.
pub open spec fn window_of(body: Seq<u8>, start: nat, len: nat) -> Seq<u8> {
    if start >= body.len() {
        Seq::empty()
    } else if start + len <= body.len() {
        body.subrange(start as int, (start + len) as int)
    } else {
        body.skip(start as int)
    }
}

fn window(body: &[u8], start: usize, len: u64) -> (bytes: &[u8])
    requires
        start <= body@.len(),
    ensures
        bytes@ == window_of(body@, start as nat, len as nat),
{
    let total: usize = body.len();
    let left: usize = total - start;
    let end: usize = if len <= left as u64 {
        start + len as usize
    } else {
        total
    };
    assert(body@.skip(start as int) =~= body@.subrange(start as int, total as int));
    let bytes = slice_subrange(body, start, end);
    assert(bytes@ =~= window_of(body@, start as nat, len as nat));
    bytes
}

/// Decrypts a whole object.  `ct_len` is the length of its age file: the trailer behind it never
/// reaches the decryptor.
pub fn decrypt_full(env: &Envelope, body: &[u8], ct_len: u64) -> (plaintext: Result<Vec<u8>, Error>)
    ensures
        match plaintext {
            Ok(p) => age_opened(env@, PINNED_WORK_FACTOR, window_of(body@, 0, ct_len as nat))
                == Some(p@),
            Err(e) => e is Crypto && age_opened(
                env@,
                PINNED_WORK_FACTOR,
                window_of(body@, 0, ct_len as nat),
            ) is None,
        },
{
    match env.decrypt(window(body, 0, ct_len)) {
        Ok(plaintext) => Ok(plaintext),
        Err(e) => Err(Error::Crypto(e.message())),
    }
}

/// Where part `i` of a composite starts.
pub open spec fn part_offset(lens: Seq<u64>, i: int) -> nat
    decreases i,
{
    if i <= 0 {
        0
    } else {
        part_offset(lens, i - 1) + lens[i - 1] as nat
    }
}

/// What the first `n` parts of a composite hold, one after the other; `None` where one of them does
/// not decrypt.
pub open spec fn composite_opened(
    passphrase: Seq<char>,
    body: Seq<u8>,
    lens: Seq<u64>,
    n: int,
) -> Option<Seq<u8>>
    decreases n,
{
    if n <= 0 {
        Some(Seq::empty())
    } else {
        let part = window_of(body, part_offset(lens, n - 1), lens[n - 1] as nat);
        match (
            composite_opened(passphrase, body, lens, n - 1),
            age_opened(passphrase, PINNED_WORK_FACTOR, part),
        ) {
            (Some(before), Some(p)) => Some(before + p),
            _ => None,
        }
    }
}

proof fn lemma_a_failed_part_fails_all(
    passphrase: Seq<char>,
    body: Seq<u8>,
    lens: Seq<u64>,
    m: int,
    n: int,
)
    requires
        0 <= m <= n,
        composite_opened(passphrase, body, lens, m) is None,
    ensures
        composite_opened(passphrase, body, lens, n) is None,
    decreases n,
{
    if m < n {
        lemma_a_failed_part_fails_all(passphrase, body, lens, m, n - 1);
    }
}

/// Decrypts a whole composite off one body: every part is an age file of its own, and its recorded
/// length is where the decryptor stops.
pub fn decrypt_composite_full(env: &Envelope, body: &[u8], part_ct_lens: &[u64]) -> (plaintext:
    Result<Vec<u8>, Error>)
    ensures
        match plaintext {
            Ok(p) => composite_opened(
                env@,
                body@,
                part_ct_lens@,
                part_ct_lens@.len() as int,
            ) == Some(p@),
            Err(e) => e is Crypto && composite_opened(
                env@,
                body@,
                part_ct_lens@,
                part_ct_lens@.len() as int,
            ) is None,
        },
{
    let total: usize = body.len();
    let mut out: Vec<u8> = Vec::new();
    let mut at: usize = 0;
    let mut i: usize = 0;
    while i < part_ct_lens.len()
        invariant
            i <= part_ct_lens@.len(),
            total == body@.len(),
            at <= total,
            at == part_offset(part_ct_lens@, i as int) || (at == total && part_offset(
                part_ct_lens@,
                i as int,
            ) >= total),
            composite_opened(env@, body@, part_ct_lens@, i as int) == Some(out@),
        decreases part_ct_lens@.len() - i,
    {
        let len: u64 = part_ct_lens[i];
        let ghost part = window_of(body@, part_offset(part_ct_lens@, i as int), len as nat);
        let bytes = window(body, at, len);
        assert(bytes@ =~= part);
        match env.decrypt(bytes) {
            Ok(mut p) => {
                let ghost before = out@;
                let ghost piece = p@;
                out.append(&mut p);
                assert(out@ =~= before + piece);
            },
            Err(e) => {
                proof {
                    lemma_a_failed_part_fails_all(
                        env@,
                        body@,
                        part_ct_lens@,
                        i + 1,
                        part_ct_lens@.len() as int,
                    );
                }
                return Err(Error::Crypto(e.message()));
            },
        }
        at = if len <= (total - at) as u64 {
            at + len as usize
        } else {
            total
        };
        i += 1;
    }
    Ok(out)
}

// ---- one part of a shared body ----------------------------------------------------------------

/// One part's view of the body that all parts share: it ends after the part's recorded length, which
/// is what leaves the body aligned on the next part.
pub struct PartWindow {
    pub remaining: u64,
}

impl PartWindow {
    /// How many bytes a read into a buffer may ask the body for.  None means that the part is over,
    /// or that there is no room.
    pub fn cap(&self, buf_len: usize) -> (cap: usize)
        ensures
            cap == if buf_len <= self.remaining {
                buf_len as nat
            } else {
                self.remaining as nat
            },
    {
        if buf_len as u64 <= self.remaining {
            buf_len
        } else {
            self.remaining as usize
        }
    }

    /// The body gave that many bytes.
    pub fn took(&mut self, n: usize)
        requires
            n <= old(self).remaining,
        ensures
            final(self).remaining == old(self).remaining - n,
    {
        self.remaining = self.remaining - n as u64;
    }
}

// ---- the composite reader ---------------------------------------------------------------------

#[derive(Clone, Copy, Debug, PartialEq, Eq, Structural)]
pub enum PartState {
    /// Nothing is open.
    Next,
    Opening,
    Reading,
    /// A failure, which stays: nothing that failed may be polled again.
    Failed,
}

/// What the driver of a composite read reports.
#[derive(Clone, Copy, Debug, PartialEq, Eq, Structural)]
pub enum ReadEvent {
    /// The consumer asks for bytes; it may have no room for any.
    Polled,
    Pending,
    Opened,
    OpenFailed,
    Read(usize),
    ReadFailed,
}

/// What the driver of a composite read does next.
#[derive(Clone, Copy, Debug, PartialEq, Eq, Structural)]
pub enum ReadAction {
    /// Open a decryptor over the next `len` bytes of the body.
    Open(u64),
    PollOpen,
    PollRead,
    /// That many bytes have been read for the consumer.
    Filled(usize),
    /// The consumer has no room.
    NoRoom,
    Wait,
    End,
    Fail,
    FailedBefore,
}

/// Where a composite read stands: how many parts have been opened, and the state of the last.
pub struct ReadView {
    pub opened: nat,
    pub part: PartState,
}

/// How a read goes on where nothing is being waited for.
pub open spec fn read_on(lens: Seq<u64>, r: ReadView, room: bool) -> (ReadView, ReadAction) {
    match r.part {
        PartState::Next => if r.opened < lens.len() {
            (
                ReadView { opened: r.opened + 1, part: PartState::Opening },
                ReadAction::Open(lens[r.opened as int]),
            )
        } else {
            (r, ReadAction::End)
        },
        PartState::Opening => (r, ReadAction::PollOpen),
        PartState::Reading => (
            r,
            if room {
                ReadAction::PollRead
            } else {
                ReadAction::NoRoom
            },
        ),
        PartState::Failed => (r, ReadAction::FailedBefore),
    }
}

/// Which events may be reported when.
pub open spec fn read_expects(r: ReadView, event: ReadEvent) -> bool {
    match event {
        ReadEvent::Polled => true,
        ReadEvent::Pending => r.part == PartState::Opening || r.part == PartState::Reading,
        ReadEvent::Opened | ReadEvent::OpenFailed => r.part == PartState::Opening,
        ReadEvent::Read(_) | ReadEvent::ReadFailed => r.part == PartState::Reading,
    }
}

/// One step of a composite read.
pub open spec fn read_step(
    lens: Seq<u64>,
    r: ReadView,
    event: ReadEvent,
    room: bool,
) -> (ReadView, ReadAction) {
    match event {
        ReadEvent::Polled => read_on(lens, r, room),
        ReadEvent::Pending => (r, ReadAction::Wait),
        ReadEvent::Opened => read_on(lens, ReadView { part: PartState::Reading, ..r }, room),
        ReadEvent::OpenFailed | ReadEvent::ReadFailed => (
            ReadView { part: PartState::Failed, ..r },
            ReadAction::Fail,
        ),
        ReadEvent::Read(n) => if n == 0 {
            read_on(lens, ReadView { part: PartState::Next, ..r }, room)
        } else {
            (r, ReadAction::Filled(n))
        },
    }
}

/// The parts of a composite, decrypted in order off one body into one plaintext.  One part is open
/// at a time.
pub struct CompositeReader {
    ct_lens: Vec<u64>,
    opened: usize,
    part: PartState,
}

impl CompositeReader {
    pub closed spec fn lens(&self) -> Seq<u64> {
        self.ct_lens@
    }

    pub closed spec fn view(&self) -> ReadView {
        ReadView { opened: self.opened as nat, part: self.part }
    }

    #[verifier::type_invariant]
    closed spec fn opens_listed_parts(self) -> bool {
        self.opened <= self.ct_lens@.len()
    }

    pub fn new(ct_lens: Vec<u64>) -> (reader: Self)
        ensures
            reader.lens() == ct_lens@,
            reader.view() == (ReadView { opened: 0, part: PartState::Next }),
    {
        CompositeReader { ct_lens, opened: 0, part: PartState::Next }
    }

    fn go_on(&mut self, room: bool) -> (action: ReadAction)
        ensures
            final(self).lens() == old(self).lens(),
            read_on(old(self).lens(), old(self).view(), room) == (final(self).view(), action),
    {
        proof {
            use_type_invariant(&*self);
        }
        match self.part {
            PartState::Next => {
                if self.opened < self.ct_lens.len() {
                    let len: u64 = self.ct_lens[self.opened];
                    self.opened = self.opened + 1;
                    self.part = PartState::Opening;
                    ReadAction::Open(len)
                } else {
                    ReadAction::End
                }
            },
            PartState::Opening => ReadAction::PollOpen,
            PartState::Reading => if room {
                ReadAction::PollRead
            } else {
                ReadAction::NoRoom
            },
            PartState::Failed => ReadAction::FailedBefore,
        }
    }

    /// Takes in what came of the last action and says what comes next; `room` says whether the
    /// consumer has room for any bytes.
    pub fn step(&mut self, event: ReadEvent, room: bool) -> (action: ReadAction)
        requires
            read_expects(old(self).view(), event),
        ensures
            final(self).lens() == old(self).lens(),
            read_step(old(self).lens(), old(self).view(), event, room) == (
                final(self).view(),
                action,
            ),
    {
        match event {
            ReadEvent::Polled => self.go_on(room),
            ReadEvent::Pending => ReadAction::Wait,
            ReadEvent::Opened => {
                self.set_part(PartState::Reading);
                self.go_on(room)
            },
            ReadEvent::OpenFailed => {
                self.set_part(PartState::Failed);
                ReadAction::Fail
            },
            ReadEvent::ReadFailed => {
                self.set_part(PartState::Failed);
                ReadAction::Fail
            },
            ReadEvent::Read(n) => {
                if n == 0 {
                    self.set_part(PartState::Next);
                    self.go_on(room)
                } else {
                    ReadAction::Filled(n)
                }
            },
        }
    }

    fn set_part(&mut self, part: PartState)
        ensures
            final(self).lens() == old(self).lens(),
            final(self).view() == (ReadView { part, ..old(self).view() }),
    {
        proof {
            use_type_invariant(&*self);
        }
        self.part = part;
    }
}

// ---- ranges -----------------------------------------------------------------------------------

/// One part's contribution to a ranged read of a composite.
#[derive(Debug, PartialEq, Eq)]
pub enum PartSegment {
    /// The whole part: its age file ends itself.
    Whole(Range<u64>),
    /// The plaintext range `pt` of the part at the ciphertext window `ct`.
    Partial { ct: Range<u64>, pt: Range<u64> },
}

/// How a segment is read: the window of the object to open, how many plaintext bytes of it to pass
/// over, and how many to emit, where not all.
#[derive(Clone, Copy, Debug, PartialEq, Eq, Structural)]
pub struct SegmentRead {
    pub base: u64,
    pub len: u64,
    pub seek: u64,
    pub take: Option<u64>,
}

impl PartSegment {
    pub open spec fn window(&self) -> Range<u64> {
        match *self {
            PartSegment::Whole(ct) => ct,
            PartSegment::Partial { ct, .. } => ct,
        }
    }

    /// The ranges run forward.
    pub open spec fn wf(&self) -> bool {
        &&& self.window().start <= self.window().end
        &&& self matches PartSegment::Partial { pt, .. } ==> pt.start <= pt.end
    }

    pub fn read(&self) -> (read: SegmentRead)
        requires
            self.wf(),
        ensures
            read.base == self.window().start,
            read.base + read.len == self.window().end,
            match *self {
                PartSegment::Whole(_) => read.seek == 0 && read.take is None,
                PartSegment::Partial { pt, .. } => read.seek == pt.start && read.take == Some(
                    (pt.end - pt.start) as u64,
                ),
            },
    {
        match self {
            PartSegment::Whole(ct) => SegmentRead {
                base: ct.start,
                len: ct.end - ct.start,
                seek: 0,
                take: None,
            },
            PartSegment::Partial { ct, pt } => SegmentRead {
                base: ct.start,
                len: ct.end - ct.start,
                seek: pt.start,
                take: Some(pt.end - pt.start),
            },
        }
    }
}

/// The `Range` header of a request for some bytes, both ends included.
pub open spec fn range_text(first: nat, last: nat) -> Seq<char> {
    "bytes="@ + decimal(first) + "-"@ + decimal(last)
}

/// The `Range` header that opens a window of an object at an offset.  Nothing is requested at or
/// past the window's end, and the range stops there, so a read never runs into the next part.
pub fn open_range(base: u64, len: u64, offset: u64) -> (range: Option<String>)
    requires
        base + len <= u64::MAX,
    ensures
        match range {
            Some(r) => offset < len && r@ == range_text(
                (base + offset) as nat,
                (base + len - 1) as nat,
            ),
            None => offset >= len,
        },
{
    if offset >= len {
        return None;
    }
    let mut r: String = "bytes=".to_string();
    push_decimal(&mut r, base + offset);
    proof {
        reveal_strlit("-");
        assert("-"@ =~= seq!['-']);
    }
    r.push('-');
    push_decimal(&mut r, base + (len - 1));
    assert(r@ =~= range_text((base + offset) as nat, (base + len - 1) as nat));
    Some(r)
}

// ---- laws -------------------------------------------------------------------------------------

/// Some byte strings, one behind the other.
pub open spec fn joined(pieces: Seq<Seq<u8>>) -> Seq<u8>
    decreases pieces.len(),
{
    if pieces.len() == 0 {
        Seq::empty()
    } else {
        joined(pieces.drop_last()) + pieces.last()
    }
}

/// Each part is as long as it is listed, and opens to its plaintext.
pub open spec fn parts_open(
    passphrase: Seq<char>,
    files: Seq<Seq<u8>>,
    plaintexts: Seq<Seq<u8>>,
    lens: Seq<u64>,
) -> bool {
    &&& files.len() == lens.len()
    &&& plaintexts.len() == lens.len()
    &&& forall|i: int|
        0 <= i < lens.len() ==> (#[trigger] files[i]).len() == lens[i] && age_opened(
            passphrase,
            PINNED_WORK_FACTOR,
            files[i],
        ) == Some(plaintexts[i])
}

proof fn lemma_first_parts_read_back(
    passphrase: Seq<char>,
    files: Seq<Seq<u8>>,
    plaintexts: Seq<Seq<u8>>,
    lens: Seq<u64>,
    body: Seq<u8>,
    n: int,
)
    requires
        parts_open(passphrase, files, plaintexts, lens),
        0 <= n <= files.len(),
        joined(files.take(n)).is_prefix_of(body),
    ensures
        part_offset(lens, n) == joined(files.take(n)).len(),
        composite_opened(passphrase, body, lens, n) == Some(joined(plaintexts.take(n))),
    decreases n,
{
    if n == 0 {
        assert(joined(plaintexts.take(0)) =~= Seq::empty());
    } else {
        let (before, part) = (joined(files.take(n - 1)), files[n - 1]);
        assert(files.take(n).drop_last() =~= files.take(n - 1));
        assert(plaintexts.take(n).drop_last() =~= plaintexts.take(n - 1));
        let all = before + part;
        assert(joined(files.take(n)) == all);
        assert(body.subrange(0, all.len() as int) == all);
        assert(body.subrange(0, before.len() as int) =~= all.subrange(0, before.len() as int));
        assert(all.subrange(0, before.len() as int) =~= before);
        lemma_first_parts_read_back(passphrase, files, plaintexts, lens, body, n - 1);
        assert(body.subrange(before.len() as int, all.len() as int) =~= all.subrange(
            before.len() as int,
            all.len() as int,
        ));
        assert(all.subrange(before.len() as int, all.len() as int) =~= part);
        if part.len() == 0 {
            assert(window_of(body, before.len(), 0) =~= part);
        }
        assert(window_of(body, part_offset(lens, n - 1), lens[n - 1] as nat) == part);
    }
}

/// A composite reads back: the parts' files one behind the other, whatever follows them, decrypt to
/// the parts' plaintexts one behind the other.
pub proof fn a_composite_reads_back(
    passphrase: Seq<char>,
    files: Seq<Seq<u8>>,
    plaintexts: Seq<Seq<u8>>,
    lens: Seq<u64>,
    behind: Seq<u8>,
)
    requires
        parts_open(passphrase, files, plaintexts, lens),
    ensures
        composite_opened(passphrase, joined(files) + behind, lens, lens.len() as int) == Some(
            joined(plaintexts),
        ),
{
    let body = joined(files) + behind;
    assert(files.take(files.len() as int) =~= files);
    assert(plaintexts.take(files.len() as int) =~= plaintexts);
    assert(body.subrange(0, joined(files).len() as int) =~= joined(files));
    lemma_first_parts_read_back(passphrase, files, plaintexts, lens, body, files.len() as int);
}

/// What a composite read has done after some events.
pub open spec fn read_run(lens: Seq<u64>, events: Seq<(ReadEvent, bool)>) -> ReadView
    decreases events.len(),
{
    if events.len() == 0 {
        ReadView { opened: 0, part: PartState::Next }
    } else {
        read_step(lens, read_run(lens, events.drop_last()), events.last().0, events.last().1).0
    }
}

/// The parts that a composite read has opened, in the order in which it did.
pub open spec fn opened_parts(lens: Seq<u64>, events: Seq<(ReadEvent, bool)>) -> Seq<u64>
    decreases events.len(),
{
    if events.len() == 0 {
        Seq::empty()
    } else {
        let before = opened_parts(lens, events.drop_last());
        match read_step(
            lens,
            read_run(lens, events.drop_last()),
            events.last().0,
            events.last().1,
        ).1 {
            ReadAction::Open(len) => before.push(len),
            _ => before,
        }
    }
}

/// Parts are opened in the order of the table, each of them once, and the next one only after the
/// last has been read out: whatever the events, the body is aligned on the part that is opened.
pub proof fn parts_are_opened_in_order(lens: Seq<u64>, events: Seq<(ReadEvent, bool)>)
    ensures
        read_run(lens, events).opened <= lens.len(),
        opened_parts(lens, events) == lens.take(read_run(lens, events).opened as int),
    decreases events.len(),
{
    if events.len() > 0 {
        parts_are_opened_in_order(lens, events.drop_last());
        let r = read_run(lens, events.drop_last());
        assert(opened_parts(lens, events) =~= lens.take(read_run(lens, events).opened as int));
    } else {
        assert(lens.take(0) =~= Seq::empty());
    }
}

/// The end comes only once every part has been opened and read out.
pub proof fn a_composite_ends_after_its_last_part(lens: Seq<u64>, r: ReadView, event: ReadEvent, room: bool)
    requires
        r.opened <= lens.len(),
        read_step(lens, r, event, room).1 == ReadAction::End,
    ensures
        r.opened == lens.len(),
{
}

/// A composite read that has failed stays failed.
pub proof fn a_failed_read_stays_failed(lens: Seq<u64>, r: ReadView, room: bool)
    requires
        r.part == PartState::Failed,
    ensures
        read_step(lens, r, ReadEvent::Polled, room) == (r, ReadAction::FailedBefore),
{
}

/// A part that is being read is left only at the end of its plaintext, or by a failure: nothing else
/// that happens to it, and in particular no wait, closes it or opens another.
pub proof fn an_open_part_is_read_to_its_end(
    lens: Seq<u64>,
    r: ReadView,
    event: ReadEvent,
    room: bool,
)
    requires
        read_expects(r, event),
        r.part == PartState::Reading,
        event != ReadEvent::Read(0),
        event != ReadEvent::ReadFailed,
    ensures
        read_step(lens, r, event, room).0 == r,
        match event {
            ReadEvent::Read(n) => read_step(lens, r, event, room).1 == ReadAction::Filled(n),
            ReadEvent::Pending => read_step(lens, r, event, room).1 == ReadAction::Wait,
            _ => read_step(lens, r, event, room).1 == if room {
                ReadAction::PollRead
            } else {
                ReadAction::NoRoom
            },
        },
{
}

/// A part that is being opened is waited for until it is open or has failed: then it is the one that
/// is read.
pub proof fn a_part_is_waited_for_until_it_opens(
    lens: Seq<u64>,
    r: ReadView,
    event: ReadEvent,
    room: bool,
)
    requires
        read_expects(r, event),
        r.part == PartState::Opening,
    ensures
        read_step(lens, r, event, room).0.opened == r.opened,
        match event {
            ReadEvent::Opened => {
                &&& read_step(lens, r, event, room).0.part == PartState::Reading
                &&& room ==> read_step(lens, r, event, room).1 == ReadAction::PollRead
            },
            ReadEvent::OpenFailed => {
                &&& read_step(lens, r, event, room).0.part == PartState::Failed
                &&& read_step(lens, r, event, room).1 == ReadAction::Fail
            },
            ReadEvent::Pending => {
                &&& read_step(lens, r, event, room).0 == r
                &&& read_step(lens, r, event, room).1 == ReadAction::Wait
            },
            _ => {
                &&& read_step(lens, r, event, room).0 == r
                &&& read_step(lens, r, event, room).1 == ReadAction::PollOpen
            },
        },
{
}

/// At the end of a part, and at the start, the next part is opened, with its own length; where there
/// is none, the body is over.  A part that fails fails the read.
pub proof fn the_end_of_a_part_leads_to_the_next(lens: Seq<u64>, r: ReadView, room: bool)
    requires
        r.opened <= lens.len(),
    ensures
        r.part == PartState::Reading ==> ({
            let next = read_step(lens, r, ReadEvent::Read(0), room);
            if r.opened < lens.len() {
                &&& next.1 == ReadAction::Open(lens[r.opened as int])
                &&& next.0.opened == r.opened + 1
                &&& next.0.part == PartState::Opening
            } else {
                next.1 == ReadAction::End
            }
        }),
        r.part == PartState::Next ==> ({
            let next = read_step(lens, r, ReadEvent::Polled, room);
            if r.opened < lens.len() {
                &&& next.1 == ReadAction::Open(lens[r.opened as int])
                &&& next.0.opened == r.opened + 1
                &&& next.0.part == PartState::Opening
            } else {
                next.1 == ReadAction::End
            }
        }),
        r.part == PartState::Reading ==> read_step(lens, r, ReadEvent::ReadFailed, room).1
            == ReadAction::Fail && read_step(lens, r, ReadEvent::ReadFailed, room).0.part
            == PartState::Failed,
{
}

/// A window is the bytes from its start on, as many as it has and as there are.
pub proof fn a_window_is_cut_where_it_says(front: Seq<u8>, middle: Seq<u8>, back: Seq<u8>, more: nat)
    requires
        more > 0,
    ensures
        window_of(front + middle + back, front.len(), middle.len()) == middle,
        window_of(front + middle, front.len(), middle.len() + more) == middle,
        window_of(front, front.len() + more, more) == Seq::<u8>::empty(),
{
    assert(window_of(front + middle + back, front.len(), middle.len()) =~= middle);
    assert(window_of(front + middle, front.len(), middle.len() + more) =~= middle);
}

/// A composite body opens only where every one of its parts does, and then to what they hold, in order.
pub proof fn a_composite_body_opens_part_by_part(
    passphrase: Seq<char>,
    body: Seq<u8>,
    lens: Seq<u64>,
    n: int,
)
    requires
        0 <= n < lens.len(),
    ensures
        composite_opened(passphrase, body, lens, 0) == Some(Seq::<u8>::empty()),
        part_offset(lens, 0) == 0,
        part_offset(lens, n + 1) == part_offset(lens, n) + lens[n],
        ({
            let part = age_opened(
                passphrase,
                PINNED_WORK_FACTOR,
                window_of(body, part_offset(lens, n), lens[n] as nat),
            );
            let before = composite_opened(passphrase, body, lens, n);
            &&& composite_opened(passphrase, body, lens, n + 1) is Some <==> before is Some
                && part is Some
            &&& before is Some && part is Some ==> composite_opened(passphrase, body, lens, n + 1)
                == Some(before->0 + part->0)
        }),
{
    reveal_with_fuel(composite_opened, 2);
    reveal_with_fuel(part_offset, 2);
}

/// A range is asked for by its first and its last byte.
pub proof fn a_range_names_its_first_and_last_byte(first: nat, last: nat)
    ensures
        range_text(first, last) == "bytes="@ + decimal(first) + "-"@ + decimal(last),
{
}

/// A segment is read from its own window of the object, the whole part or the chunks around a piece.
pub proof fn a_segment_has_its_own_window(ct: Range<u64>, pt: Range<u64>)
    ensures
        (PartSegment::Whole(ct)).window() == ct,
        (PartSegment::Partial { ct, pt }).window() == ct,
        (PartSegment::Whole(ct)).wf() <==> ct.start <= ct.end,
        (PartSegment::Partial { ct, pt }).wf() <==> ct.start <= ct.end && pt.start <= pt.end,
{
}

/// Whatever the reader asks for, each answer to it is expected: of a part that opens, and of one that is
/// read.
pub proof fn what_a_reader_asks_for_is_expected(
    lens: Seq<u64>,
    r: ReadView,
    event: ReadEvent,
    room: bool,
    n: usize,
)
    requires
        read_expects(r, event),
    ensures
        ({
            let (next, action) = read_step(lens, r, event, room);
            &&& read_expects(next, ReadEvent::Polled)
            &&& action is PollOpen || action is Open ==> read_expects(next, ReadEvent::Opened)
                && read_expects(next, ReadEvent::OpenFailed) && read_expects(
                next,
                ReadEvent::Pending,
            )
            &&& action is PollRead ==> read_expects(next, ReadEvent::Read(n)) && read_expects(
                next,
                ReadEvent::ReadFailed,
            ) && read_expects(next, ReadEvent::Pending)
        }),
{
}

} // verus!
