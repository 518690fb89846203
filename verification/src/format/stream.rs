//! A seekable reader over a byte-range source that can be re-opened.
//!
//! The body of a ranged request is a one-shot stream.  [`RangeReader`] makes it seekable: it
//! re-opens the source at the new offset, except for short forward seeks, which it serves by
//! discarding bytes of the current stream.

use crate::format::offset::CHUNK_CIPHERTEXT;
use vstd::prelude::*;

verus! {

/// Forward seeks of up to this many bytes discard bytes instead of re-opening: one chunk.
pub const SKIP_THRESHOLD: u64 = CHUNK_CIPHERTEXT;

/// The bytes of a stream or of an object, as contracts speak of them.
pub type Content = Seq<u8>;

/// A one-shot stream of bytes.
pub trait RangeRead: Sized {
    type Error;

    /// The bytes that are still to come.
    spec fn rest(&self) -> Content;

    /// Whether the stream may yet fail with an error.  One that never fails has none.
    open spec fn may_fail(&self, e: Self::Error) -> bool {
        true
    }

    /// Reads at most `max` bytes; nothing is read only at the end of the stream, or where nothing
    /// was asked for, or where it fails.
    fn read(&mut self, max: usize) -> (got: Result<Vec<u8>, Self::Error>)
        ensures
            match got {
                Ok(bytes) => {
                    &&& bytes@.len() <= max
                    &&& bytes@.len() == 0 ==> max == 0 || old(self).rest().len() == 0
                    &&& old(self).rest() == bytes@ + final(self).rest()
                },
                Err(e) => final(self).rest() == old(self).rest() && old(self).may_fail(e),
            },
            forall|e: Self::Error| #[trigger] final(self).may_fail(e) ==> old(self).may_fail(e),
    ;
}

/// An object whose bytes can be streamed from any offset.
pub trait RangeSource: Sized {
    type Reader: RangeRead;

    /// The bytes of the object.
    spec fn content(&self) -> Content;

    /// Whether to open the object, or to read it, may fail with an error.
    open spec fn may_fail(&self, e: <Self::Reader as RangeRead>::Error) -> bool {
        true
    }

    /// The offsets at which the object has been opened so far, where the source keeps them.
    open spec fn opens(&self) -> Option<Seq<u64>> {
        None
    }

    /// The length of the object.
    fn len(&self) -> (len: u64)
        ensures
            len == self.content().len(),
    ;

    fn is_empty(&self) -> (empty: bool)
        ensures
            empty == (self.content().len() == 0),
    {
        self.len() == 0
    }

    /// Opens a stream at `offset`, to the end of the object.
    fn open_at(&mut self, offset: u64) -> (opened: Result<
        Self::Reader,
        <Self::Reader as RangeRead>::Error,
    >)
        ensures
            final(self).content() == old(self).content(),
            match opened {
                Ok(reader) => {
                    &&& reader.rest() == from_offset(old(self).content(), offset as nat)
                    &&& forall|e: <Self::Reader as RangeRead>::Error| #[trigger]
                        reader.may_fail(e) ==> old(self).may_fail(e)
                },
                Err(e) => old(self).may_fail(e),
            },
            forall|e: <Self::Reader as RangeRead>::Error| #[trigger]
                final(self).may_fail(e) == old(self).may_fail(e),
            final(self).opens() == opened_again(old(self).opens(), offset),
    ;
}

/// The offsets once the object has been opened at one more.
pub open spec fn opened_again(opens: Option<Seq<u64>>, offset: u64) -> Option<Seq<u64>> {
    match opens {
        Some(before) => Some(before.push(offset)),
        None => None,
    }
}

/// The bytes of an object from `offset` on; none, where that is past the end.
pub open spec fn from_offset(content: Seq<u8>, offset: nat) -> Seq<u8> {
    if offset <= content.len() {
        content.skip(offset as int)
    } else {
        Seq::empty()
    }
}

/// Where a seek goes to.
#[derive(Clone, Copy, Debug, PartialEq, Eq, Structural)]
pub enum SeekTo {
    Start(u64),
    End(i64),
    Current(i64),
}

/// Why a seek failed.
#[derive(Clone, Copy, Debug, PartialEq, Eq)]
pub enum SeekError<E> {
    /// The target lies before byte 0, or past the largest offset.
    OutOfRange,
    /// The stream failed while bytes were discarded.
    Source(E),
}

/// The offset that a seek names; it need not be one.
pub open spec fn seek_target(to: SeekTo, len: nat, pos: nat) -> int {
    match to {
        SeekTo::Start(o) => o as int,
        SeekTo::End(d) => len + d,
        SeekTo::Current(d) => pos + d,
    }
}

pub struct RangeReader<S: RangeSource> {
    source: S,
    pos: u64,
    inner: Option<S::Reader>,
}

impl<S: RangeSource> RangeReader<S> {
    /// The bytes of the object that is read.
    pub closed spec fn content(&self) -> Seq<u8> {
        self.source.content()
    }

    /// The offset of the next byte.
    pub closed spec fn pos(&self) -> nat {
        self.pos as nat
    }

    /// Whether a stream is open.
    pub closed spec fn streaming(&self) -> bool {
        self.inner is Some
    }

    /// Whether the source may fail with an error.
    pub closed spec fn may_fail(&self, e: <S::Reader as RangeRead>::Error) -> bool {
        self.source.may_fail(e)
    }

    /// The offsets at which the source has been opened, where it keeps them.
    pub closed spec fn opens(&self) -> Option<Seq<u64>> {
        self.source.opens()
    }

    /// An open stream stands exactly at the reader's position, and fails as the source may.
    pub closed spec fn inv(&self) -> bool {
        self.inner matches Some(reader) ==> {
            &&& reader.rest() == from_offset(self.source.content(), self.pos as nat)
            &&& forall|e: <S::Reader as RangeRead>::Error| #[trigger]
                reader.may_fail(e) ==> self.source.may_fail(e)
        }
    }

    pub fn new(source: S) -> (reader: Self)
        ensures
            reader.inv(),
            reader.content() == source.content(),
            reader.pos() == 0,
            !reader.streaming(),
            reader.opens() == source.opens(),
            forall|e: <S::Reader as RangeRead>::Error| #[trigger]
                reader.may_fail(e) == source.may_fail(e),
    {
        RangeReader { source, pos: 0, inner: None }
    }

    pub fn position(&self) -> (pos: u64)
        ensures
            pos == self.pos(),
    {
        self.pos
    }

    /// The source, given back.
    pub fn into_source(self) -> (source: S)
        ensures
            source.content() == self.content(),
            source.opens() == self.opens(),
            forall|e: <S::Reader as RangeRead>::Error| #[trigger]
                source.may_fail(e) == self.may_fail(e),
    {
        self.source
    }

    /// Reads at most `max` bytes at the current position.  It fails only where the source does, with
    /// the error of the source; the position then stays, and so does an open stream.  An open stream
    /// is read on; where there is none, the source is opened once, at the position.
    pub fn read(&mut self, max: usize) -> (got: Result<Vec<u8>, <S::Reader as RangeRead>::Error>)
        requires
            old(self).inv(),
        ensures
            final(self).inv(),
            final(self).content() == old(self).content(),
            match got {
                Ok(bytes) => {
                    let rest = from_offset(old(self).content(), old(self).pos());
                    &&& bytes@.len() <= max
                    &&& bytes@.len() == 0 ==> max == 0 || rest.len() == 0
                    &&& bytes@ =~= rest.take(bytes@.len() as int)
                    &&& bytes@.len() <= rest.len()
                    &&& final(self).pos() == old(self).pos() + bytes@.len()
                    &&& final(self).streaming()
                },
                Err(e) => {
                    &&& old(self).may_fail(e)
                    &&& final(self).pos() == old(self).pos()
                    &&& old(self).streaming() ==> final(self).streaming()
                },
            },
            final(self).opens() == if old(self).streaming() {
                old(self).opens()
            } else {
                opened_again(old(self).opens(), old(self).pos() as u64)
            },
            forall|e: <S::Reader as RangeRead>::Error| #[trigger]
                final(self).may_fail(e) == old(self).may_fail(e),
    {
        // What is read lies within the object, so the position stays within its length.
        let len: u64 = self.source.len();
        let mut reader: S::Reader = match self.inner.take() {
            Some(reader) => reader,
            None => match self.source.open_at(self.pos) {
                Ok(reader) => reader,
                Err(e) => {
                    return Err(e);
                },
            },
        };
        let ghost rest = reader.rest();
        let got = reader.read(max);
        match got {
            Ok(bytes) => {
                proof {
                    assert(rest.len() == bytes@.len() + reader.rest().len());
                    assert(bytes@.len() > 0 ==> self.pos + bytes@.len() <= len);
                    assert(rest.take(bytes@.len() as int) =~= bytes@);
                    assert(rest.skip(bytes@.len() as int) =~= reader.rest());
                    assert(reader.rest() =~= from_offset(
                        self.source.content(),
                        self.pos as nat + bytes@.len(),
                    ));
                }
                self.inner = Some(reader);
                self.pos = self.pos + bytes.len() as u64;
                Ok(bytes)
            },
            Err(e) => {
                self.inner = Some(reader);
                Err(e)
            },
        }
    }

    /// Moves to another position.  A short way forward is read and discarded; any other move drops
    /// the stream, and the next read opens one at the new position.  No move opens the source.
    pub fn seek(&mut self, to: SeekTo) -> (moved: Result<
        u64,
        SeekError<<S::Reader as RangeRead>::Error>,
    >)
        requires
            old(self).inv(),
        ensures
            final(self).inv(),
            final(self).content() == old(self).content(),
            ({
                let target = seek_target(to, old(self).content().len(), old(self).pos());
                let gap = target - old(self).pos();
                let skips = old(self).streaming() && 0 < gap <= SKIP_THRESHOLD;
                match moved {
                    Ok(pos) => {
                        &&& pos == target
                        &&& final(self).pos() == target
                        &&& final(self).streaming() == (old(self).streaming() && 0 <= gap
                            <= SKIP_THRESHOLD)
                    },
                    Err(SeekError::OutOfRange) => {
                        &&& !(0 <= target <= u64::MAX)
                        &&& final(self).pos() == old(self).pos()
                        &&& final(self).streaming() == old(self).streaming()
                    },
                    Err(SeekError::Source(e)) => {
                        &&& skips
                        &&& old(self).may_fail(e)
                        &&& final(self).pos() == old(self).pos()
                        &&& !final(self).streaming()
                    },
                }
            }),
            final(self).opens() == old(self).opens(),
            forall|e: <S::Reader as RangeRead>::Error| #[trigger]
                final(self).may_fail(e) == old(self).may_fail(e),
    {
        let len: u64 = self.source.len();
        let target: Option<u64> = match to {
            SeekTo::Start(o) => Some(o),
            SeekTo::End(d) => len.checked_add_signed(d),
            SeekTo::Current(d) => self.pos.checked_add_signed(d),
        };
        let new: u64 = match target {
            Some(new) => new,
            None => {
                return Err(SeekError::OutOfRange);
            },
        };
        if new == self.pos {
            return Ok(new);
        }
        let short_forward: bool = new > self.pos && new - self.pos <= SKIP_THRESHOLD;
        let held: Option<S::Reader> = self.inner.take();
        match held {
            Some(reader) => {
                if short_forward {
                    match discard(reader, new - self.pos) {
                        Ok(reader) => {
                            proof {
                                assert(reader.rest() =~= from_offset(
                                    self.source.content(),
                                    new as nat,
                                ));
                            }
                            self.inner = Some(reader);
                        },
                        Err(e) => {
                            return Err(SeekError::Source(e));
                        },
                    }
                }
            },
            None => {},
        }
        self.pos = new;
        Ok(new)
    }
}

/// Reads and discards `gap` bytes, or what is left where that is less.  It fails only where the
/// stream does, with the stream's error.
fn discard<R: RangeRead>(stream: R, gap: u64) -> (skipped: Result<R, R::Error>)
    requires
        gap <= SKIP_THRESHOLD,
    ensures
        match skipped {
            Ok(r) => {
                &&& r.rest() == from_offset(stream.rest(), gap as nat)
                &&& forall|e: R::Error| #[trigger] r.may_fail(e) ==> stream.may_fail(e)
            },
            Err(e) => stream.may_fail(e),
        },
{
    let ghost all = stream.rest();
    let mut reader = stream;
    let mut left: usize = gap as usize;
    assert(from_offset(reader.rest(), 0) =~= reader.rest());
    while left > 0
        invariant
            all == stream.rest(),
            from_offset(all, gap as nat) == from_offset(reader.rest(), left as nat),
            forall|e: R::Error| #[trigger] reader.may_fail(e) ==> stream.may_fail(e),
        decreases left,
    {
        let ghost before = reader.rest();
        match reader.read(left) {
            Ok(bytes) => {
                let got: usize = bytes.len();
                if got == 0 {
                    assert(from_offset(before, left as nat) =~= reader.rest());
                    return Ok(reader);
                }
                assert(from_offset(before, left as nat) =~= from_offset(
                    reader.rest(),
                    (left - got) as nat,
                ));
                left -= got;
            },
            Err(e) => {
                return Err(e);
            },
        }
    }
    assert(from_offset(reader.rest(), 0) =~= reader.rest());
    Ok(reader)
}

/// An object held in memory, which counts how often it is opened.
#[derive(Clone, Debug)]
pub struct MemSource {
    pub data: Vec<u8>,
    pub opens: u64,
    /// Where it was opened, in turn.
    pub offsets: Vec<u64>,
}

/// A stream over an object held in memory.
#[derive(Clone, Debug)]
pub struct MemRead {
    data: Vec<u8>,
    pos: usize,
}

impl MemSource {
    pub fn new(data: Vec<u8>) -> (source: Self)
        ensures
            source.content() == data@,
            source.opens == 0,
            source.offsets@ == Seq::<u64>::empty(),
    {
        MemSource { data, opens: 0, offsets: Vec::new() }
    }
}

impl RangeRead for MemRead {
    type Error = ();

    closed spec fn rest(&self) -> Seq<u8> {
        from_offset(self.data@, self.pos as nat)
    }

    open spec fn may_fail(&self, e: ()) -> bool {
        false
    }

    fn read(&mut self, max: usize) -> (got: Result<Vec<u8>, ()>)
        ensures
            got is Ok,
    {
        let mut out: Vec<u8> = Vec::new();
        let ghost start = self.pos as int;
        let ghost rest = self.rest();
        while out.len() < max && self.pos < self.data.len()
            invariant
                out@.len() <= max,
                self.data@ == old(self).data@,
                start == old(self).pos,
                rest == old(self).rest(),
                start + out@.len() == self.pos,
                rest == out@ + self.rest(),
            decreases max - out@.len(),
        {
            let ghost before = self.rest();
            let b: u8 = self.data[self.pos];
            out.push(b);
            self.pos = self.pos + 1;
            assert(before =~= seq![b] + self.rest());
            assert(rest =~= out@ + self.rest());
        }
        Ok(out)
    }
}

impl RangeSource for MemSource {
    type Reader = MemRead;

    open spec fn content(&self) -> Seq<u8> {
        self.data@
    }

    open spec fn may_fail(&self, e: ()) -> bool {
        false
    }

    open spec fn opens(&self) -> Option<Seq<u64>> {
        Some(self.offsets@)
    }

    fn len(&self) -> (len: u64) {
        self.data.len() as u64
    }

    fn open_at(&mut self, offset: u64) -> (opened: Result<MemRead, ()>)
        ensures
            opened is Ok,
            final(self).opens == (if old(self).opens < u64::MAX {
                (old(self).opens + 1) as u64
            } else {
                u64::MAX
            }),
    {
        if self.opens < u64::MAX {
            self.opens = self.opens + 1;
        }
        self.offsets.push(offset);
        let data: Vec<u8> = self.data.clone();
        let end: usize = data.len();
        assert(data@ =~= self.data@);
        let pos: usize = if offset <= end as u64 {
            offset as usize
        } else {
            end
        };
        let reader = MemRead { data, pos };
        assert(reader.rest() =~= from_offset(self.data@, offset as nat));
        Ok(reader)
    }
}

/// What is read from an offset on is the object without its first bytes, and nothing past its end.
pub proof fn an_offset_leaves_the_rest(front: Seq<u8>, back: Seq<u8>, beyond: nat)
    requires
        beyond > 0,
    ensures
        from_offset(front + back, front.len()) == back,
        from_offset(front, front.len() + beyond) == Seq::<u8>::empty(),
        from_offset(front, 0) == front,
{
    assert(from_offset(front + back, front.len()) =~= back);
    assert(from_offset(front, 0) =~= front);
}

/// A seek counts from the start, from the end or from where the reader is.
pub proof fn a_seek_counts_from_where_it_says(at: u64, by: i64, len: nat, pos: nat)
    ensures
        seek_target(SeekTo::Start(at), len, pos) == at,
        seek_target(SeekTo::End(by), len, pos) == len + by,
        seek_target(SeekTo::Current(by), len, pos) == pos + by,
{
}

/// Opening a source is remembered behind the openings before it.
pub proof fn an_opening_is_remembered(before: Seq<u64>, offset: u64)
    ensures
        opened_again(Some(before), offset) == Some(before + seq![offset]),
        opened_again(None, offset) is None,
{
    assert(before.push(offset) =~= before + seq![offset]);
}

} // verus!
