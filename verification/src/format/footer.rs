//! The fixed-size plaintext facts footer: 48 bytes behind the ciphertext of an object.
//!
//! The layout is `magic (8) | version (1) | kind (1) | count (4) | reserved (2) | plen (8) |
//! mtime (8) | md5 (16)`, numbers lowest byte first.  The footer sits outside the age envelope:
//! decrypting must stop before it.

use crate::codes::{hex_encode, hex_of};
use crate::le::{
    le_bytes, le_bytes_inverts_le_value, le_value_inverts_le_bytes, lemma_le_bytes_len,
    lemma_pow256_values, push_le, read_le, to_signed, to_unsigned, twos,
};
use crate::text::{decimal, push_decimal};
use vstd::prelude::*;

verus! {

/// The encoded size.
pub const FOOTER_LEN: u64 = 48;

/// The version that is written and the only one that is read.
pub const VERSION: u8 = 1;

/// What the object at whose tail a footer sits is.
#[derive(Clone, Copy, Debug, PartialEq, Eq, Structural)]
pub enum FooterKind {
    /// One age file and the footer.
    Single,
    /// A concatenation of age files, with the footer as its last part.
    Composite,
}

#[derive(Clone, Copy, Debug, PartialEq, Eq)]
pub struct Footer {
    pub kind: FooterKind,
    /// The client part count of a composite; 1 for a single-part object.
    pub count: u32,
    /// The plaintext length of the object.
    pub plen: u64,
    /// The original client-write time, in unix milliseconds.
    pub mtime_ms: i64,
    /// Raw MD5: of the plaintext, or of the concatenated MD5s of a composite's parts.
    pub md5: [u8; 16],
}

/// The bytes `hyphaftr`.
pub open spec fn magic() -> Seq<u8> {
    seq![104u8, 121, 112, 104, 97, 102, 116, 114]
}

pub open spec fn kind_byte(kind: FooterKind) -> u8 {
    match kind {
        FooterKind::Single => 0,
        FooterKind::Composite => 1,
    }
}

impl Footer {
    /// The header of the layout: everything up to the kind.
    pub open spec fn lead(self) -> Seq<u8> {
        magic() + seq![VERSION, kind_byte(self.kind)]
    }

    /// The footer as it is stored, with the two reserved bytes given.
    pub open spec fn stored(self, reserved: Seq<u8>) -> Seq<u8> {
        self.lead() + le_bytes(self.count as nat, 4) + reserved + le_bytes(self.plen as nat, 8)
            + le_bytes(twos(self.mtime_ms), 8) + self.md5@
    }

    /// The client-visible ETag: the bare hexadecimal MD5 of a single-part object, and with `-` and
    /// the part count behind it that of a composite.
    pub open spec fn etag(self) -> Seq<char> {
        match self.kind {
            FooterKind::Single => hex_of(self.md5@),
            FooterKind::Composite => hex_of(self.md5@).push('-') + decimal(self.count as nat),
        }
    }

    /// Lays the footer out; the reserved bytes are zero.
    pub fn encode(&self) -> (b: [u8; 48])
        ensures
            b@ == self.stored(seq![0u8, 0u8]),
    {
        let mut out: Vec<u8> = Vec::new();
        let magic_bytes: [u8; 8] = [104, 121, 112, 104, 97, 102, 116, 114];
        assert(magic_bytes@ =~= magic());
        out.extend_from_slice(&magic_bytes);
        out.push(VERSION);
        out.push(
            match self.kind {
                FooterKind::Single => 0,
                FooterKind::Composite => 1,
            },
        );
        push_le(&mut out, self.count as u64, 4);
        out.push(0);
        out.push(0);
        push_le(&mut out, self.plen, 8);
        push_le(&mut out, to_unsigned(self.mtime_ms), 8);
        out.extend_from_slice(&self.md5);
        assert(out@ =~= self.stored(seq![0u8, 0u8]));
        proof {
            lemma_le_bytes_len(self.count as nat, 4);
            lemma_le_bytes_len(self.plen as nat, 8);
            lemma_le_bytes_len(twos(self.mtime_ms), 8);
        }
        let mut b: [u8; 48] = [0;48];
        let mut i: usize = 0;
        while i < 48
            invariant
                i <= 48,
                out@.len() == 48,
                forall|j: int| 0 <= j < i ==> b@[j] == out@[j],
            decreases 48 - i,
        {
            b[i] = out[i];
            i += 1;
        }
        assert(b@ =~= out@);
        b
    }

    /// Reads a stored footer; `None` for bytes that no footer is laid out as.
    pub fn decode(b: &[u8]) -> (footer: Option<Self>)
        ensures
            match footer {
                Some(f) => b@.len() == 48 && f.stored(b@.subrange(14, 16)) == b@,
                None => forall|f: Footer, reserved: Seq<u8>|
                    reserved.len() == 2 ==> #[trigger] f.stored(reserved) != b@,
            },
    {
        proof {
            assert forall|f: Footer, reserved: Seq<u8>| reserved.len() == 2 && #[trigger] f.stored(
                reserved,
            ) == b@ implies b@.len() == 48 && b@.subrange(0, 8) == magic() && b@[8] == VERSION
                && b@[9] == kind_byte(f.kind) by {
                lemma_stored_fields(f, reserved);
            }
        }
        if b.len() != FOOTER_LEN as usize {
            return None;
        }
        let magic_bytes: [u8; 8] = [104, 121, 112, 104, 97, 102, 116, 114];
        assert(magic_bytes@ =~= magic());
        let mut i: usize = 0;
        while i < 8
            invariant
                i <= 8,
                b@.len() == 48,
                magic_bytes@ == magic(),
                forall|j: int| 0 <= j < i ==> b@[j] == magic()[j],
                forall|f: Footer, reserved: Seq<u8>|
                    reserved.len() == 2 && #[trigger] f.stored(reserved) == b@ ==> b@.subrange(0, 8)
                        == magic(),
            decreases 8 - i,
        {
            if b[i] != magic_bytes[i] {
                assert(b@.subrange(0, 8)[i as int] != magic()[i as int]);
                return None;
            }
            i += 1;
        }
        if b[8] != VERSION {
            return None;
        }
        let kind: FooterKind = match b[9] {
            0 => FooterKind::Single,
            1 => FooterKind::Composite,
            _ => {
                return None;
            },
        };
        let mut md5: [u8; 16] = [0;16];
        let mut k: usize = 0;
        while k < 16
            invariant
                k <= 16,
                b@.len() == 48,
                forall|j: int| 0 <= j < k ==> md5@[j] == b@[32 + j],
            decreases 16 - k,
        {
            md5[k] = b[32 + k];
            k += 1;
        }
        let count: u64 = read_le(b, 10, 4);
        let plen: u64 = read_le(b, 16, 8);
        let mtime: u64 = read_le(b, 24, 8);
        proof {
            lemma_pow256_values();
            le_bytes_inverts_le_value(b@.subrange(10, 14));
            le_bytes_inverts_le_value(b@.subrange(16, 24));
            le_bytes_inverts_le_value(b@.subrange(24, 32));
        }
        let footer = Footer { kind, count: count as u32, plen, mtime_ms: to_signed(mtime), md5 };
        proof {
            assert(b@.subrange(0, 8) =~= magic());
            assert(md5@ =~= b@.subrange(32, 48));
            assert(b@ =~= b@.subrange(0, 8) + b@.subrange(8, 10) + b@.subrange(10, 14)
                + b@.subrange(14, 16) + b@.subrange(16, 24) + b@.subrange(24, 32) + b@.subrange(
                32,
                48,
            ));
            assert(b@.subrange(8, 10) =~= seq![VERSION, kind_byte(kind)]);
            assert(footer.stored(b@.subrange(14, 16)) =~= b@);
        }
        Some(footer)
    }

    /// The client-visible ETag.
    pub fn client_etag(&self) -> (etag: String)
        ensures
            etag@ == self.etag(),
    {
        let mut etag: String = hex_encode(&self.md5);
        match self.kind {
            FooterKind::Single => etag,
            FooterKind::Composite => {
                etag.push('-');
                push_decimal(&mut etag, self.count as u64);
                etag
            },
        }
    }
}

proof fn lemma_stored_fields(f: Footer, reserved: Seq<u8>)
    requires
        reserved.len() == 2,
    ensures
        f.stored(reserved).len() == 48,
        f.stored(reserved).subrange(0, 8) == magic(),
        f.stored(reserved)[8] == VERSION,
        f.stored(reserved)[9] == kind_byte(f.kind),
        f.stored(reserved).subrange(10, 14) == le_bytes(f.count as nat, 4),
        f.stored(reserved).subrange(16, 24) == le_bytes(f.plen as nat, 8),
        f.stored(reserved).subrange(24, 32) == le_bytes(twos(f.mtime_ms), 8),
        f.stored(reserved).subrange(32, 48) == f.md5@,
{
    lemma_le_bytes_len(f.count as nat, 4);
    lemma_le_bytes_len(f.plen as nat, 8);
    lemma_le_bytes_len(twos(f.mtime_ms), 8);
    let s = f.stored(reserved);
    assert(s.subrange(0, 8) =~= magic());
    assert(s.subrange(10, 14) =~= le_bytes(f.count as nat, 4));
    assert(s.subrange(16, 24) =~= le_bytes(f.plen as nat, 8));
    assert(s.subrange(24, 32) =~= le_bytes(twos(f.mtime_ms), 8));
    assert(s.subrange(32, 48) =~= f.md5@);
}

/// A stored footer reads back as itself: two footers that are stored as the same bytes agree in
/// every field, whatever the reserved bytes are.
pub proof fn stored_footer_reads_back(f: Footer, g: Footer, reserved: Seq<u8>, other: Seq<u8>)
    requires
        reserved.len() == 2,
        other.len() == 2,
        f.stored(reserved) == g.stored(other),
    ensures
        f.kind == g.kind,
        f.count == g.count,
        f.plen == g.plen,
        f.mtime_ms == g.mtime_ms,
        f.md5@ == g.md5@,
{
    lemma_stored_fields(f, reserved);
    lemma_stored_fields(g, other);
    lemma_pow256_values();
    le_value_inverts_le_bytes(f.count as nat, 4);
    le_value_inverts_le_bytes(g.count as nat, 4);
    le_value_inverts_le_bytes(f.plen as nat, 8);
    le_value_inverts_le_bytes(g.plen as nat, 8);
    le_value_inverts_le_bytes(twos(f.mtime_ms), 8);
    le_value_inverts_le_bytes(twos(g.mtime_ms), 8);
}

/// A stored footer has each of its fields in its own place: the magic, the version, the kind, the count,
/// two bytes that are kept, the length, the time and the digest, lowest byte first.
pub proof fn a_footer_has_its_fields_in_their_places(f: Footer, reserved: Seq<u8>)
    requires
        reserved.len() == 2,
    ensures
        ({
            let b = f.stored(reserved);
            &&& b.len() == 48
            &&& b.subrange(0, 8) == seq![104u8, 121, 112, 104, 97, 102, 116, 114]
            &&& b[8] == VERSION
            &&& b[9] == 0 <==> f.kind == FooterKind::Single
            &&& b[9] == 1 <==> f.kind == FooterKind::Composite
            &&& b.subrange(10, 14) == le_bytes(f.count as nat, 4)
            &&& b.subrange(14, 16) == reserved
            &&& b.subrange(16, 24) == le_bytes(f.plen as nat, 8)
            &&& f.mtime_ms >= 0 ==> b.subrange(24, 32) == le_bytes(f.mtime_ms as nat, 8)
            &&& f.mtime_ms < 0 ==> b.subrange(24, 32) == le_bytes(
                (0x1_0000_0000_0000_0000 + f.mtime_ms) as nat,
                8,
            )
            &&& b.subrange(32, 48) == f.md5@
        }),
{
    lemma_stored_fields(f, reserved);
    lemma_le_bytes_len(f.count as nat, 4);
    lemma_le_bytes_len(f.plen as nat, 8);
    lemma_le_bytes_len(twos(f.mtime_ms), 8);
    assert(f.stored(reserved).subrange(14, 16) =~= reserved);
}

/// The ETag of a single body is its digest, and that of a composite one its digest, a dash and its count.
pub proof fn a_footer_gives_the_clients_etag(f: Footer)
    ensures
        f.kind == FooterKind::Single ==> f.etag() == hex_of(f.md5@),
        f.kind == FooterKind::Composite ==> f.etag() == hex_of(f.md5@) + seq!['-'] + decimal(
            f.count as nat,
        ),
{
    assert(hex_of(f.md5@).push('-') =~= hex_of(f.md5@) + seq!['-']);
}

} // verus!
