//! Closed-form plaintext-byte to ciphertext-byte arithmetic for the age v1 payload.
//!
//! An age file is `header | payload nonce (16) | chunk 0 | chunk 1 | ...`, where every chunk is
//! 64 KiB of plaintext and a 16-byte tag, except the last, which is shorter and never empty,
//! unless the whole plaintext is empty: that still produces one empty chunk.  A scrypt stanza is
//! always a file's sole stanza, so the header length is the constant [`HLEN`].

use core::ops::Range;
use vstd::prelude::*;

verus! {

pub const CHUNK_PLAINTEXT: u64 = 65536;

pub const TAG: u64 = 16;

pub const CHUNK_CIPHERTEXT: u64 = 65552;

pub const PAYLOAD_NONCE: u64 = 16;

/// The age v1 header length for a pinned scrypt recipient: a 16-byte salt is 22 base64
/// characters and the work factor is one digit.
pub const HLEN: u64 = 149;

/// How many chunks a plaintext of `plen` bytes is cut into.
pub open spec fn chunks_for(plen: nat) -> nat {
    if plen == 0 {
        1
    } else {
        (plen + CHUNK_PLAINTEXT - 1) as nat / CHUNK_PLAINTEXT as nat
    }
}

/// The length of the file that holds `plen` bytes of plaintext behind a header of `hlen` bytes.
pub open spec fn framed(plen: nat, hlen: nat) -> nat {
    hlen + PAYLOAD_NONCE as nat + plen + chunks_for(plen) * TAG as nat
}

/// Where chunk number `chunk` starts in the file.
pub open spec fn chunk_start(chunk: nat, hlen: nat) -> nat {
    hlen + PAYLOAD_NONCE as nat + chunk * CHUNK_CIPHERTEXT as nat
}

/// The end of the file range that covers the plaintext range that ends at `pt_end`: the end of
/// the chunk that holds its last byte, or the end of the file if that comes first.
pub open spec fn covering_end(pt_end: nat, plen: nat, hlen: nat) -> nat {
    let end = if pt_end == 0 {
        chunk_start(0, hlen)
    } else {
        chunk_start((pt_end - 1) as nat / CHUNK_PLAINTEXT as nat + 1, hlen)
    };
    if end < framed(plen, hlen) {
        end
    } else {
        framed(plen, hlen)
    }
}

pub fn chunk_count(plaintext_len: u64) -> (count: u64)
    ensures
        count == chunks_for(plaintext_len as nat),
{
    if plaintext_len == 0 {
        1
    } else {
        (plaintext_len - 1) / CHUNK_PLAINTEXT + 1
    }
}

pub fn ciphertext_len(plaintext_len: u64, header_len: u64) -> (len: u64)
    requires
        framed(plaintext_len as nat, header_len as nat) <= u64::MAX,
    ensures
        len == framed(plaintext_len as nat, header_len as nat),
{
    header_len + PAYLOAD_NONCE + plaintext_len + chunk_count(plaintext_len) * TAG
}

/// The chunk that holds plaintext byte `offset`.
pub fn chunk_of(offset: u64) -> (chunk: u64)
    ensures
        chunk == offset / CHUNK_PLAINTEXT,
        chunk * CHUNK_PLAINTEXT <= offset < (chunk + 1) * CHUNK_PLAINTEXT,
{
    offset / CHUNK_PLAINTEXT
}

/// The plaintext length of a file from its total length and its header length; `None` where no
/// plaintext has a file of that length.
pub fn plaintext_len_from(total_ciphertext_len: u64, header_len: u64) -> (plen: Option<u64>)
    requires
        header_len + PAYLOAD_NONCE <= u64::MAX,
    ensures
        match plen {
            Some(p) => framed(p as nat, header_len as nat) == total_ciphertext_len,
            None => forall|p: nat| #[trigger] framed(p, header_len as nat) != total_ciphertext_len,
        },
{
    let ghost h = header_len as nat;
    let ghost t = total_ciphertext_len as nat;
    let front: u64 = header_len + PAYLOAD_NONCE;
    if total_ciphertext_len < front {
        return None;
    }
    let payload: u64 = total_ciphertext_len - front;
    let ceiling: u64 = if payload == 0 {
        0
    } else {
        (payload - 1) / CHUNK_CIPHERTEXT + 1
    };
    let chunks: u64 = if ceiling < 1 {
        1
    } else {
        ceiling
    };
    proof {
        assert forall|p: nat| #[trigger] framed(p, h) == t implies chunks == chunks_for(p) by {
            lemma_payload_determines_chunks(p, payload as nat);
        }
    }
    if payload < chunks * TAG {
        return None;
    }
    let plen: u64 = payload - chunks * TAG;
    assert(chunks_for(plen as nat) <= chunks);
    if ciphertext_len(plen, header_len) == total_ciphertext_len {
        Some(plen)
    } else {
        proof {
            assert forall|p: nat| #[trigger] framed(p, h) != t by {
                if framed(p, h) == t {
                    assert(p == plen);
                }
            }
        }
        None
    }
}

/// The payload length alone fixes the number of chunks.
proof fn lemma_payload_determines_chunks(p: nat, payload: nat)
    requires
        payload == p + chunks_for(p) * TAG as nat,
    ensures
        payload > 0,
        chunks_for(p) == (payload - 1) / (CHUNK_CIPHERTEXT as int) + 1,
{
    if p > 0 {
        let c = chunks_for(p);
        assert((c - 1) * 65536 < p <= c * 65536);
    }
}

pub fn chunk_ciphertext_offset(chunk: u64, header_len: u64) -> (offset: u64)
    requires
        chunk_start(chunk as nat, header_len as nat) <= u64::MAX,
    ensures
        offset == chunk_start(chunk as nat, header_len as nat),
{
    header_len + PAYLOAD_NONCE + chunk * CHUNK_CIPHERTEXT
}

/// The file range that covers the plaintext range `pt`, as whole chunks, cut at the end of the
/// file.  The header is not part of it.  The file's length and the end of the last covered chunk,
/// were it a full one, must be offsets.
pub fn ciphertext_range(pt: Range<u64>, plaintext_len: u64, header_len: u64) -> (ct: Range<u64>)
    requires
        pt.start <= pt.end <= plaintext_len,
        framed(plaintext_len as nat, header_len as nat) <= u64::MAX,
        pt.end > 0 ==> chunk_start(
            (pt.end - 1) as nat / CHUNK_PLAINTEXT as nat + 1,
            header_len as nat,
        ) <= u64::MAX,
    ensures
        ct.start == chunk_start(
            pt.start as nat / CHUNK_PLAINTEXT as nat,
            header_len as nat,
        ),
        ct.end == covering_end(pt.end as nat, plaintext_len as nat, header_len as nat),
{
    proof {
        if pt.end > 0 {
            assert(pt.start as nat / 65536 <= (pt.end - 1) as nat / 65536 + 1);
        }
    }
    let start: u64 = chunk_ciphertext_offset(chunk_of(pt.start), header_len);
    let end: u64 = if pt.end == 0 {
        chunk_ciphertext_offset(0, header_len)
    } else {
        chunk_ciphertext_offset(chunk_of(pt.end - 1) + 1, header_len)
    };
    let file_end: u64 = ciphertext_len(plaintext_len, header_len);
    let clamped: u64 = if end < file_end {
        end
    } else {
        file_end
    };
    Range { start, end: clamped }
}

/// Files of different plaintext lengths have different lengths, and a longer plaintext has the
/// longer file.
pub proof fn framed_is_strictly_increasing(p: nat, q: nat, hlen: nat)
    requires
        p < q,
    ensures
        framed(p, hlen) < framed(q, hlen),
{
}

/// A file's length gives its plaintext length back: no other plaintext length frames to it.
pub proof fn framed_length_identifies_plaintext_length(p: nat, q: nat, hlen: nat)
    requires
        framed(p, hlen) == framed(q, hlen),
    ensures
        p == q,
{
    if p < q {
        framed_is_strictly_increasing(p, q, hlen);
    } else if q < p {
        framed_is_strictly_increasing(q, p, hlen);
    }
}

/// The covering range of a nonempty plaintext range holds the whole chunk of every byte in it:
/// from the chunk's start to its tag, or to the end of the file where the chunk is the last.
pub proof fn covering_range_holds_every_chunk(start: nat, end: nat, plen: nat, hlen: nat, at: nat)
    requires
        start <= at < end <= plen,
    ensures
        chunk_start(start / CHUNK_PLAINTEXT as nat, hlen) <= chunk_start(
            at / CHUNK_PLAINTEXT as nat,
            hlen,
        ),
        covering_end(end, plen, hlen) >= chunk_start(at / CHUNK_PLAINTEXT as nat + 1, hlen)
            || covering_end(end, plen, hlen) == framed(plen, hlen),
        chunk_start(at / CHUNK_PLAINTEXT as nat, hlen) < covering_end(end, plen, hlen) <= framed(
            plen,
            hlen,
        ),
{
    assert(at / 65536 <= (end - 1) as nat / 65536);
    assert(start / 65536 <= at / 65536);
}

/// A body has as many chunks as it needs and no more, and an empty one has one; its file has a header, a
/// nonce, the body and a tag for every chunk.
pub proof fn a_body_has_the_chunks_it_needs(plen: nat, hlen: nat)
    ensures
        chunks_for(plen) >= 1,
        plen <= chunks_for(plen) * 65536,
        plen > 0 ==> (chunks_for(plen) - 1) * 65536 < plen,
        plen == 0 ==> chunks_for(plen) == 1,
        framed(plen, hlen) == hlen + 16 + plen + 16 * chunks_for(plen),
{
}

/// A chunk starts behind the header, the nonce and the whole chunks before it.
pub proof fn a_chunk_starts_behind_those_before_it(chunk: nat, hlen: nat)
    ensures
        chunk_start(chunk, hlen) == hlen + 16 + chunk * (65536 + 16),
        chunk_start(chunk + 1, hlen) == chunk_start(chunk, hlen) + 65536 + 16,
        chunk_start(0, hlen) == hlen + 16,
{
}

/// A range is covered by its chunks and nothing behind them: the cover ends with the chunk of the last
/// byte, or with the file where that chunk is the last.
pub proof fn a_cover_ends_with_the_last_chunk(pt_end: nat, plen: nat, hlen: nat)
    requires
        pt_end <= plen,
    ensures
        covering_end(pt_end, plen, hlen) <= framed(plen, hlen),
        pt_end > 0 ==> covering_end(pt_end, plen, hlen) <= chunk_start(
            ((pt_end - 1) / 65536 + 1) as nat,
            hlen,
        ),
        pt_end > 0 ==> covering_end(pt_end, plen, hlen) == framed(plen, hlen) || covering_end(
            pt_end,
            plen,
            hlen,
        ) == chunk_start(((pt_end - 1) / 65536 + 1) as nat, hlen),
        pt_end == 0 ==> covering_end(pt_end, plen, hlen) == hlen + 16,
{
}

} // verus!
