//! Authenticated object facts and multipart geometry.
//!
//! The tail of an object is `table | checksum | facts (38) | tag (16) | version (2)`.  The facts
//! sit at a known offset from the end, so their checksum descriptor and part count size the
//! fields before them.  The trailer sits outside the age envelopes: decrypting must stop before it.

use core::ops::Range;
use crate::codes::{hex_encode, hex_of};
use crate::digest::{constant_time_eq, hmac_sha256, hmac_sha256_of};
use crate::format::offset::{
    framed, framed_length_identifies_plaintext_length, plaintext_len_from, HLEN,
};
use crate::le::{
    le_bytes, le_bytes_inverts_le_value, le_value, le_value_inverts_le_bytes, lemma_le_bytes_len,
    lemma_pow256_values, push_le, read_le, signed_of, to_signed, to_unsigned, twos,
};
use crate::text::{decimal, push_decimal};
use vstd::prelude::*;
use vstd::utf8::encode_utf8;

verus! {

/// The trailer format version, stored as the object's final two bytes.
pub const VERSION: u16 = 1;

/// The length of the truncated HMAC-SHA256 tag.
pub const TAG_LEN: usize = 16;

pub const VERSION_LEN: usize = 2;

/// The most client parts of a composite: S3's full part range.
pub const MAX_PARTS: usize = 10_000;

/// One entry of the parts table: a cumulative ciphertext end offset.
pub const PART_ENTRY_LEN: usize = 8;

pub const MAX_TABLE_LEN: usize = 80_000;

pub const FACTS_LEN: usize = 38;

pub const MIN_SINGLE_TRAILER_LEN: usize = 56;

pub const MAX_SINGLE_TRAILER_LEN: usize = 88;

/// The largest trailer: one suffix read of this many bytes captures any object's trailer.
pub const MAX_TAIL_LEN: usize = 80_088;

#[derive(Clone, Copy, Debug, PartialEq, Eq, Structural)]
pub enum FooterKind {
    Single,
    Composite,
}

#[derive(Clone, Copy, Debug, PartialEq, Eq, Structural)]
pub enum ChecksumAlgorithm {
    Crc32,
    Crc32c,
    Crc64Nvme,
    Sha1,
    Sha256,
}

#[derive(Clone, Copy, Debug, PartialEq, Eq, Structural)]
pub enum ChecksumKind {
    FullObject,
    Composite,
}

#[derive(Clone, Debug, PartialEq, Eq)]
pub struct StoredChecksum {
    pub algorithm: ChecksumAlgorithm,
    pub kind: ChecksumKind,
    pub value: Vec<u8>,
}

#[derive(Clone, Debug, PartialEq, Eq)]
pub struct Footer {
    pub kind: FooterKind,
    pub count: u32,
    pub plen: u64,
    /// The original client-write time, in unix milliseconds.
    pub mtime_ms: i64,
    /// Raw MD5: of the plaintext, or of the concatenated MD5s of a composite's parts.
    pub md5: [u8; 16],
    pub checksum: Option<StoredChecksum>,
}

/// What a [`StoredChecksum`] holds.
#[verifier::ext_equal]
pub struct ChecksumView {
    pub algorithm: ChecksumAlgorithm,
    pub kind: ChecksumKind,
    pub value: Seq<u8>,
}

/// What a [`Footer`] holds.
#[verifier::ext_equal]
pub struct FooterView {
    pub kind: FooterKind,
    pub count: u32,
    pub plen: u64,
    pub mtime_ms: i64,
    pub md5: Seq<u8>,
    pub checksum: Option<ChecksumView>,
}

/// What a [`Tail`] holds: `ends` are the cumulative ends of the parts.
#[verifier::ext_equal]
pub struct TailView {
    pub footer: FooterView,
    pub ends: Seq<u64>,
    pub plens: Seq<u64>,
    pub body_ct_len: u64,
}

impl View for StoredChecksum {
    type V = ChecksumView;

    open spec fn view(&self) -> ChecksumView {
        ChecksumView { algorithm: self.algorithm, kind: self.kind, value: self.value@ }
    }
}

impl View for Footer {
    type V = FooterView;

    open spec fn view(&self) -> FooterView {
        FooterView {
            kind: self.kind,
            count: self.count,
            plen: self.plen,
            mtime_ms: self.mtime_ms,
            md5: self.md5@,
            checksum: match self.checksum {
                Some(c) => Some(c@),
                None => None,
            },
        }
    }
}

// ---- the layout -------------------------------------------------------------------------------

/// How many bytes a checksum of an algorithm has.
pub open spec fn digest_size(algorithm: ChecksumAlgorithm) -> nat {
    match algorithm {
        ChecksumAlgorithm::Crc32 => 4,
        ChecksumAlgorithm::Crc32c => 4,
        ChecksumAlgorithm::Crc64Nvme => 8,
        ChecksumAlgorithm::Sha1 => 20,
        ChecksumAlgorithm::Sha256 => 32,
    }
}

pub open spec fn kind_byte(kind: FooterKind) -> u8 {
    match kind {
        FooterKind::Single => 0,
        FooterKind::Composite => 1,
    }
}

pub open spec fn algorithm_code(algorithm: ChecksumAlgorithm) -> u8 {
    match algorithm {
        ChecksumAlgorithm::Crc32 => 1,
        ChecksumAlgorithm::Crc32c => 2,
        ChecksumAlgorithm::Crc64Nvme => 3,
        ChecksumAlgorithm::Sha1 => 4,
        ChecksumAlgorithm::Sha256 => 5,
    }
}

pub open spec fn checksum_kind_code(kind: ChecksumKind) -> u8 {
    match kind {
        ChecksumKind::FullObject => 1,
        ChecksumKind::Composite => 2,
    }
}

/// The checksum kind in the high half, the algorithm in the low half; zero for no checksum.
pub open spec fn descriptor_of(checksum: Option<ChecksumView>) -> u8 {
    match checksum {
        Some(c) => (checksum_kind_code(c.kind) * 16 + algorithm_code(c.algorithm)) as u8,
        None => 0,
    }
}

/// The 38 bytes of the facts.
pub open spec fn facts_of(f: FooterView) -> Seq<u8> {
    seq![kind_byte(f.kind)] + le_bytes(f.count as nat, 4) + le_bytes(f.plen as nat, 8) + le_bytes(
        twos(f.mtime_ms),
        8,
    ) + f.md5 + seq![descriptor_of(f.checksum)]
}

pub open spec fn checksum_of(f: FooterView) -> Seq<u8> {
    match f.checksum {
        Some(c) => c.value,
        None => Seq::empty(),
    }
}

/// The parts table: eight bytes for each end, lowest byte first.
pub open spec fn table_of(ends: Seq<u64>) -> Seq<u8> {
    Seq::new(8 * ends.len(), |i: int| le_bytes(ends[i / 8] as nat, 8)[i % 8])
}

/// What the tag authenticates.  The object key comes last: every field before it delimits itself.
pub open spec fn signed_message(
    object_key: Seq<char>,
    body_ct_len: nat,
    facts: Seq<u8>,
    checksum: Seq<u8>,
    table: Seq<u8>,
) -> Seq<u8> {
    le_bytes(VERSION as nat, 2) + le_bytes(body_ct_len, 8) + facts + checksum + table + encode_utf8(
        object_key,
    )
}

/// The first 16 bytes of the HMAC-SHA256 code of a message.
pub open spec fn tag_over(key: Seq<u8>, message: Seq<u8>) -> Seq<u8> {
    Seq::new(16, |i: int| hmac_sha256_of(key, message)[i])
}

/// The whole trailer of an object.
pub open spec fn trailer_of(
    key: Seq<u8>,
    object_key: Seq<char>,
    body_ct_len: nat,
    f: FooterView,
    ends: Seq<u64>,
) -> Seq<u8> {
    table_of(ends) + checksum_of(f) + facts_of(f) + tag_over(
        key,
        signed_message(object_key, body_ct_len, facts_of(f), checksum_of(f), table_of(ends)),
    ) + le_bytes(VERSION as nat, 2)
}

impl FooterView {
    /// A footer that can be stored: a 16-byte MD5, and a checksum of its algorithm's length.
    pub open spec fn storable(self) -> bool {
        &&& self.md5.len() == 16
        &&& self.checksum matches Some(c) ==> c.value.len() == digest_size(c.algorithm)
    }
}

// ---- the geometry -----------------------------------------------------------------------------

/// Where part `i` starts: at the end of the part before it.
pub open spec fn part_start(ends: Seq<u64>, i: int) -> u64 {
    if i <= 0 {
        0
    } else {
        ends[i - 1]
    }
}

pub open spec fn sum_of(s: Seq<u64>) -> nat
    decreases s.len(),
{
    if s.len() == 0 {
        0
    } else {
        sum_of(s.drop_last()) + s.last() as nat
    }
}

/// Part `i` is not empty, lies in the body, and frames `plen` bytes of plaintext.
pub open spec fn part_frames(ends: Seq<u64>, body_ct_len: u64, i: int, plen: u64) -> bool {
    &&& part_start(ends, i) < ends[i] <= body_ct_len
    &&& framed(plen as nat, HLEN as nat) == ends[i] - part_start(ends, i)
}

/// The parts tile the body, and their plaintexts add up to the stamped length.
pub open spec fn tiles(t: TailView) -> bool {
    &&& 0 < t.footer.count == t.ends.len()
    &&& t.plens.len() == t.ends.len()
    &&& forall|i: int|
        0 <= i < t.ends.len() ==> part_frames(t.ends, t.body_ct_len, i, #[trigger] t.plens[i])
    &&& t.ends.last() == t.body_ct_len
    &&& sum_of(t.plens) == t.footer.plen
}

/// The last bytes of an object of `object_len` bytes are the trailer that `t` describes.
pub open spec fn opens(
    key: Seq<u8>,
    object_key: Seq<char>,
    object_len: u64,
    tail: Seq<u8>,
    t: TailView,
) -> bool {
    let trailer = trailer_of(key, object_key, t.body_ct_len as nat, t.footer, t.ends);
    &&& t.footer.storable()
    &&& t.footer.kind is Single ==> t.ends.len() == 0 && t.plens.len() == 0
    &&& t.footer.kind is Composite ==> tiles(t)
    &&& trailer.len() <= tail.len()
    &&& tail.subrange(tail.len() - trailer.len(), tail.len() as int) == trailer
    &&& t.body_ct_len + trailer.len() == object_len
}

// ---- proofs about the layout ------------------------------------------------------------------

proof fn lemma_facts_fields(f: FooterView)
    requires
        f.md5.len() == 16,
    ensures
        facts_of(f).len() == 38,
        facts_of(f)[0] == kind_byte(f.kind),
        facts_of(f).subrange(1, 5) == le_bytes(f.count as nat, 4),
        facts_of(f).subrange(5, 13) == le_bytes(f.plen as nat, 8),
        facts_of(f).subrange(13, 21) == le_bytes(twos(f.mtime_ms), 8),
        facts_of(f).subrange(21, 37) == f.md5,
        facts_of(f)[37] == descriptor_of(f.checksum),
{
    lemma_le_bytes_len(f.count as nat, 4);
    lemma_le_bytes_len(f.plen as nat, 8);
    lemma_le_bytes_len(twos(f.mtime_ms), 8);
    let s = facts_of(f);
    assert(s.subrange(1, 5) =~= le_bytes(f.count as nat, 4));
    assert(s.subrange(5, 13) =~= le_bytes(f.plen as nat, 8));
    assert(s.subrange(13, 21) =~= le_bytes(twos(f.mtime_ms), 8));
    assert(s.subrange(21, 37) =~= f.md5);
}

proof fn lemma_le_injective(x: nat, y: nat, n: nat)
    requires
        x < crate::le::pow256(n),
        y < crate::le::pow256(n),
        le_bytes(x, n) == le_bytes(y, n),
    ensures
        x == y,
{
    le_value_inverts_le_bytes(x, n);
    le_value_inverts_le_bytes(y, n);
}

/// Different storable footers are laid out differently.
pub proof fn stored_footer_is_unambiguous(f: FooterView, g: FooterView)
    requires
        f.storable(),
        g.storable(),
        facts_of(f) == facts_of(g),
        checksum_of(f) == checksum_of(g),
    ensures
        f == g,
{
    lemma_facts_fields(f);
    lemma_facts_fields(g);
    lemma_pow256_values();
    lemma_le_injective(f.count as nat, g.count as nat, 4);
    lemma_le_injective(f.plen as nat, g.plen as nat, 8);
    lemma_le_injective(twos(f.mtime_ms), twos(g.mtime_ms), 8);
    assert(f.kind == g.kind);
    assert(f.mtime_ms == g.mtime_ms);
    assert(descriptor_of(f.checksum) == descriptor_of(g.checksum));
    match (f.checksum, g.checksum) {
        (Some(a), Some(b)) => {
            assert(a.kind == b.kind && a.algorithm == b.algorithm);
            assert(a =~= b);
        },
        _ => {},
    }
    assert(f =~= g);
}

/// A trailer without a parts table is as long as its checksum makes it.
pub proof fn a_single_trailer_has_its_declared_length(
    key: Seq<u8>,
    object_key: Seq<char>,
    body_ct_len: nat,
    f: FooterView,
)
    requires
        f.storable(),
    ensures
        trailer_of(key, object_key, body_ct_len, f, Seq::empty()).len() == MIN_SINGLE_TRAILER_LEN
            + (match f.checksum {
            Some(c) => digest_size(c.algorithm),
            None => 0,
        }),
{
    lemma_facts_fields(f);
    lemma_le_bytes_len(VERSION as nat, 2);
    assert(table_of(Seq::empty()).len() == 0);
    let message = signed_message(
        object_key,
        body_ct_len,
        facts_of(f),
        checksum_of(f),
        table_of(Seq::empty()),
    );
    assert(tag_over(key, message).len() == 16);
}

/// Different parts tables are laid out differently.
pub proof fn stored_table_is_unambiguous(a: Seq<u64>, b: Seq<u64>)
    requires
        table_of(a) == table_of(b),
    ensures
        a == b,
{
    assert(table_of(a).len() == 8 * a.len());
    assert(table_of(b).len() == 8 * b.len());
    lemma_pow256_values();
    assert forall|k: int| 0 <= k < a.len() implies a[k] == b[k] by {
        lemma_le_bytes_len(a[k] as nat, 8);
        lemma_le_bytes_len(b[k] as nat, 8);
        assert forall|j: int| 0 <= j < 8 implies #[trigger] le_bytes(a[k] as nat, 8)[j] == le_bytes(
            b[k] as nat,
            8,
        )[j] by {
            let i = 8 * k + j;
            assert(i / 8 == k && i % 8 == j);
            assert(table_of(a)[i] == le_bytes(a[k] as nat, 8)[j]);
            assert(table_of(b)[i] == le_bytes(b[k] as nat, 8)[j]);
        }
        assert(le_bytes(a[k] as nat, 8) =~= le_bytes(b[k] as nat, 8));
        lemma_le_injective(a[k] as nat, b[k] as nat, 8);
    }
    assert(a =~= b);
}

/// A buffer ends in five fields exactly if each field stands at its offset from the end.
proof fn lemma_tail_fields(
    tail: Seq<u8>,
    table: Seq<u8>,
    checksum: Seq<u8>,
    facts: Seq<u8>,
    tag: Seq<u8>,
    version: Seq<u8>,
)
    requires
        facts.len() == 38,
        tag.len() == 16,
        version.len() == 2,
        table.len() + checksum.len() + 56 <= tail.len(),
    ensures
        ({
            let n = tail.len();
            let whole = table + checksum + facts + tag + version;
            &&& whole.len() == table.len() + checksum.len() + 56
            &&& (tail.subrange(n - whole.len(), n as int) == whole) <==> {
                &&& tail.subrange(n - 2, n as int) == version
                &&& tail.subrange(n - 18, n - 2) == tag
                &&& tail.subrange(n - 56, n - 18) == facts
                &&& tail.subrange(n - 56 - checksum.len(), n - 56) == checksum
                &&& tail.subrange(
                    n - 56 - checksum.len() - table.len(),
                    n - 56 - checksum.len(),
                ) == table
            }
        }),
{
    let n = tail.len() as int;
    let whole = table + checksum + facts + tag + version;
    let end = tail.subrange(n - whole.len(), n);
    let t = table.len() as int;
    let c = checksum.len() as int;
    if end == whole {
        assert(tail.subrange(n - 2, n) =~= whole.subrange(t + c + 54, t + c + 56));
        assert(whole.subrange(t + c + 54, t + c + 56) =~= version);
        assert(tail.subrange(n - 18, n - 2) =~= whole.subrange(t + c + 38, t + c + 54));
        assert(whole.subrange(t + c + 38, t + c + 54) =~= tag);
        assert(tail.subrange(n - 56, n - 18) =~= whole.subrange(t + c, t + c + 38));
        assert(whole.subrange(t + c, t + c + 38) =~= facts);
        assert(tail.subrange(n - 56 - c, n - 56) =~= whole.subrange(t, t + c));
        assert(whole.subrange(t, t + c) =~= checksum);
        assert(tail.subrange(n - 56 - c - t, n - 56 - c) =~= whole.subrange(0, t));
        assert(whole.subrange(0, t) =~= table);
    }
    if {
        &&& tail.subrange(n - 2, n) == version
        &&& tail.subrange(n - 18, n - 2) == tag
        &&& tail.subrange(n - 56, n - 18) == facts
        &&& tail.subrange(n - 56 - c, n - 56) == checksum
        &&& tail.subrange(n - 56 - c - t, n - 56 - c) == table
    } {
        assert(end =~= tail.subrange(n - 56 - c - t, n - 56 - c) + tail.subrange(
            n - 56 - c,
            n - 56,
        ) + tail.subrange(n - 56, n - 18) + tail.subrange(n - 18, n - 2) + tail.subrange(n - 2, n));
    }
}

// ---- writing ----------------------------------------------------------------------------------

impl ChecksumAlgorithm {
    pub fn digest_len(self) -> (len: usize)
        ensures
            len == digest_size(self),
    {
        match self {
            ChecksumAlgorithm::Crc32 => 4,
            ChecksumAlgorithm::Crc32c => 4,
            ChecksumAlgorithm::Crc64Nvme => 8,
            ChecksumAlgorithm::Sha1 => 20,
            ChecksumAlgorithm::Sha256 => 32,
        }
    }

    fn code(self) -> (code: u8)
        ensures
            code == algorithm_code(self),
    {
        match self {
            ChecksumAlgorithm::Crc32 => 1,
            ChecksumAlgorithm::Crc32c => 2,
            ChecksumAlgorithm::Crc64Nvme => 3,
            ChecksumAlgorithm::Sha1 => 4,
            ChecksumAlgorithm::Sha256 => 5,
        }
    }
}

impl StoredChecksum {
    /// A checksum of the right length for its algorithm; `None` for a value of any other length.
    pub fn new(
        algorithm: ChecksumAlgorithm,
        kind: ChecksumKind,
        value: Vec<u8>,
    ) -> (checksum: Option<Self>)
        ensures
            match checksum {
                Some(c) => value@.len() == digest_size(algorithm) && c@ == (ChecksumView {
                    algorithm,
                    kind,
                    value: value@,
                }),
                None => value@.len() != digest_size(algorithm),
            },
    {
        if value.len() == algorithm.digest_len() {
            Some(StoredChecksum { algorithm, kind, value })
        } else {
            None
        }
    }
}

/// The length of a single-part trailer, with room for a checksum of the given algorithm.
pub fn single_trailer_len(algorithm: Option<ChecksumAlgorithm>) -> (len: usize)
    ensures
        len == MIN_SINGLE_TRAILER_LEN + (match algorithm {
            Some(a) => digest_size(a),
            None => 0,
        }),
{
    match algorithm {
        Some(a) => MIN_SINGLE_TRAILER_LEN + a.digest_len(),
        None => MIN_SINGLE_TRAILER_LEN,
    }
}

/// The client-visible ETag of a footer: the bare hexadecimal MD5 of a single-part object, and with
/// `-` and the part count behind it that of a composite.
pub open spec fn etag_of(f: FooterView) -> Seq<char> {
    match f.kind {
        FooterKind::Single => hex_of(f.md5),
        FooterKind::Composite => hex_of(f.md5).push('-') + decimal(f.count as nat),
    }
}

impl Footer {
    /// The facts as they are stored.
    fn to_repr(&self) -> (facts: Vec<u8>)
        ensures
            facts@ == facts_of(self@),
    {
        let mut out: Vec<u8> = Vec::new();
        out.push(
            match self.kind {
                FooterKind::Single => 0,
                FooterKind::Composite => 1,
            },
        );
        push_le(&mut out, self.count as u64, 4);
        push_le(&mut out, self.plen, 8);
        push_le(&mut out, to_unsigned(self.mtime_ms), 8);
        out.extend_from_slice(&self.md5);
        out.push(
            match &self.checksum {
                Some(c) => (match c.kind {
                    ChecksumKind::FullObject => 1u8,
                    ChecksumKind::Composite => 2u8,
                }) * 16 + c.algorithm.code(),
                None => 0,
            },
        );
        assert(out@ =~= facts_of(self@));
        out
    }

    /// The client-visible ETag.
    pub fn client_etag(&self) -> (etag: String)
        ensures
            etag@ == etag_of(self@),
    {
        let mut etag: String = hex_encode(&self.md5);
        match self.kind {
            FooterKind::Single => etag,
            FooterKind::Composite => {
                etag.push('-');
                push_decimal(&mut etag, self.count as u64);
                etag
            },
        }
    }
}

/// The key that trailers are authenticated with, derived once from the master passphrase.
#[derive(Clone)]
pub struct TrailerKey {
    key: [u8; 32],
}

impl View for TrailerKey {
    type V = Seq<u8>;

    closed spec fn view(&self) -> Seq<u8> {
        self.key@
    }
}

/// The label that sets the trailer key apart from other keys derived from the passphrase.
pub open spec fn trailer_key_label() -> Seq<u8> {
    seq![
        104u8, 121, 112, 104, 97, 45, 116, 114, 97, 105, 108, 101, 114, 45, 107, 101, 121, 45, 118,
        49,
    ]
}

impl TrailerKey {
    /// The key: the code of a fixed label under the passphrase.
    pub fn derive(passphrase: &str) -> (key: Self)
        ensures
            key@ == hmac_sha256_of(encode_utf8(passphrase@), trailer_key_label()),
    {
        let label: [u8; 20] = [
            104, 121, 112, 104, 97, 45, 116, 114, 97, 105, 108, 101, 114, 45, 107, 101, 121, 45, 118,
            49,
        ];
        assert(label@ =~= trailer_key_label());
        TrailerKey { key: hmac_sha256(passphrase.as_bytes(), &label) }
    }
}

/// The tag over a trailer's fields.
fn compute_tag(
    key: &TrailerKey,
    version: u16,
    object_key: &str,
    body_ct_len: u64,
    facts: &[u8],
    checksum: &[u8],
    table: &[u8],
) -> (tag: Vec<u8>)
    requires
        version == VERSION,
    ensures
        tag@ == tag_over(
            key@,
            signed_message(object_key@, body_ct_len as nat, facts@, checksum@, table@),
        ),
{
    let mut message: Vec<u8> = Vec::new();
    push_le(&mut message, version as u64, 2);
    push_le(&mut message, body_ct_len, 8);
    message.extend_from_slice(facts);
    message.extend_from_slice(checksum);
    message.extend_from_slice(table);
    message.extend_from_slice(object_key.as_bytes());
    assert(message@ =~= signed_message(
        object_key@,
        body_ct_len as nat,
        facts@,
        checksum@,
        table@,
    ));
    let full: [u8; 32] = hmac_sha256(&key.key, &message);
    let mut tag: Vec<u8> = Vec::new();
    let mut i: usize = 0;
    while i < TAG_LEN
        invariant
            i <= TAG_LEN,
            tag@.len() == i,
            full@.len() == 32,
            full@ == hmac_sha256_of(key@, message@),
            forall|j: int| 0 <= j < i ==> tag@[j] == full@[j],
        decreases TAG_LEN - i,
    {
        tag.push(full[i]);
        i += 1;
    }
    assert(tag@ =~= tag_over(key@, message@));
    tag
}

/// The parts table as it is stored.
fn table_bytes_of(table: &[u64]) -> (bytes: Vec<u8>)
    ensures
        bytes@ == table_of(table@),
{
    let mut bytes: Vec<u8> = Vec::new();
    let mut i: usize = 0;
    while i < table.len()
        invariant
            i <= table@.len(),
            bytes@ == table_of(table@.take(i as int)),
        decreases table@.len() - i,
    {
        let ghost before = bytes@;
        push_le(&mut bytes, table[i], 8);
        proof {
            lemma_le_bytes_len(table@[i as int] as nat, 8);
            assert(bytes@ =~= table_of(table@.take(i + 1)));
        }
        i += 1;
    }
    assert(table@.take(i as int) =~= table@);
    bytes
}

/// Builds the trailer of an object: appended to a single-part body, or the last part of a
/// composite.  `table` holds the parts' cumulative ciphertext ends, and is empty for a single part.
pub fn encode_trailer(
    key: &TrailerKey,
    object_key: &str,
    body_ct_len: u64,
    footer: &Footer,
    table: &[u64],
) -> (trailer: Vec<u8>)
    ensures
        trailer@ == trailer_of(key@, object_key@, body_ct_len as nat, footer@, table@),
{
    let facts: Vec<u8> = footer.to_repr();
    let empty: Vec<u8> = Vec::new();
    let checksum: &Vec<u8> = match &footer.checksum {
        Some(c) => &c.value,
        None => &empty,
    };
    let table_bytes: Vec<u8> = table_bytes_of(table);
    assert(checksum@ == checksum_of(footer@));
    let tag: Vec<u8> = compute_tag(
        key,
        VERSION,
        object_key,
        body_ct_len,
        &facts,
        checksum,
        &table_bytes,
    );
    let mut out: Vec<u8> = Vec::new();
    out.extend_from_slice(&table_bytes);
    out.extend_from_slice(checksum);
    out.extend_from_slice(&facts);
    out.extend_from_slice(&tag);
    push_le(&mut out, VERSION as u64, 2);
    assert(out@ =~= trailer_of(key@, object_key@, body_ct_len as nat, footer@, table@));
    out
}

// ---- reading ----------------------------------------------------------------------------------

/// Everything the read path needs, recovered from one authenticated tail read.
pub struct Tail {
    pub footer: Footer,
    /// Of a composite: the parts' ciphertext windows.  Empty for a single part.
    pub windows: Vec<Range<u64>>,
    /// Of a composite: the parts' plaintext lengths.  Empty for a single part.
    pub plens: Vec<u64>,
    /// The ciphertext length before the trailer.
    pub body_ct_len: u64,
}

impl View for Tail {
    type V = TailView;

    open spec fn view(&self) -> TailView {
        TailView {
            footer: self.footer@,
            ends: Seq::new(self.windows@.len(), |i: int| self.windows@[i].end),
            plens: self.plens@,
            body_ct_len: self.body_ct_len,
        }
    }
}

impl Tail {
    /// Each window starts where the one before it ends, the first at zero.
    pub open spec fn windows_are_contiguous(&self) -> bool {
        forall|i: int|
            0 <= i < self.windows@.len() ==> (#[trigger] self.windows@[i]).start == part_start(
                self@.ends,
                i,
            )
    }
}

/// The checksum algorithm that a descriptor names: `None` where the descriptor is invalid,
/// `Some(None)` where it says that there is no checksum.
fn checksum_algorithm(descriptor: u8) -> (algorithm: Option<Option<ChecksumAlgorithm>>)
    ensures
        match algorithm {
            Some(Some(a)) => exists|kind: ChecksumKind|
                descriptor == #[trigger] checksum_kind_code(kind) * 16 + algorithm_code(a),
            Some(None) => descriptor == 0,
            None => forall|c: Option<ChecksumView>| descriptor != #[trigger] descriptor_of(c),
        },
{
    if descriptor == 0 {
        return Some(None);
    }
    let high: u8 = descriptor / 16;
    let low: u8 = descriptor % 16;
    if high != 1 && high != 2 {
        return None;
    }
    proof {
        assert(descriptor == checksum_kind_code(ChecksumKind::FullObject) * 16 + low || descriptor
            == checksum_kind_code(ChecksumKind::Composite) * 16 + low);
    }
    match low {
        1 => Some(Some(ChecksumAlgorithm::Crc32)),
        2 => Some(Some(ChecksumAlgorithm::Crc32c)),
        3 => Some(Some(ChecksumAlgorithm::Crc64Nvme)),
        4 => Some(Some(ChecksumAlgorithm::Sha1)),
        5 => Some(Some(ChecksumAlgorithm::Sha256)),
        _ => None,
    }
}

/// The algorithm that the low half of a descriptor names.
pub open spec fn algorithm_named(low: u8) -> Option<ChecksumAlgorithm> {
    if low == 1 {
        Some(ChecksumAlgorithm::Crc32)
    } else if low == 2 {
        Some(ChecksumAlgorithm::Crc32c)
    } else if low == 3 {
        Some(ChecksumAlgorithm::Crc64Nvme)
    } else if low == 4 {
        Some(ChecksumAlgorithm::Sha1)
    } else if low == 5 {
        Some(ChecksumAlgorithm::Sha256)
    } else {
        None
    }
}

/// The checksum kind that the high half of a descriptor names.
pub open spec fn checksum_kind_named(high: u8) -> Option<ChecksumKind> {
    if high == 1 {
        Some(ChecksumKind::FullObject)
    } else if high == 2 {
        Some(ChecksumKind::Composite)
    } else {
        None
    }
}

/// Whether stored facts, with these bytes as the checksum's value, make a footer: the kind is one of
/// the two, and the descriptor is zero with no value beside it, or names an algorithm and a kind.
pub open spec fn facts_readable(facts: Seq<u8>, value: Seq<u8>) -> bool {
    let d = facts[37];
    &&& facts[0] <= 1
    &&& d == 0 ==> value.len() == 0
    &&& d != 0 ==> algorithm_named(d % 16) is Some && checksum_kind_named(d / 16) is Some
}

/// The footer that stored facts make.  A value whose length is not that of its algorithm leaves it
/// without a checksum.
pub open spec fn facts_read(facts: Seq<u8>, value: Seq<u8>) -> FooterView {
    let d = facts[37];
    FooterView {
        kind: if facts[0] == 0 {
            FooterKind::Single
        } else {
            FooterKind::Composite
        },
        count: le_value(facts.subrange(1, 5)) as u32,
        plen: le_value(facts.subrange(5, 13)) as u64,
        mtime_ms: signed_of(le_value(facts.subrange(13, 21)) as u64),
        md5: facts.subrange(21, 37),
        checksum: if d != 0 && value.len() == digest_size(algorithm_named(d % 16)->0) {
            Some(
                ChecksumView {
                    algorithm: algorithm_named(d % 16)->0,
                    kind: checksum_kind_named(d / 16)->0,
                    value,
                },
            )
        } else {
            None
        },
    }
}

/// Facts whose value has the length that their descriptor calls for are those of the footer that
/// they make, and of no storable one where they make none.
proof fn lemma_facts_read(facts: Seq<u8>, value: Seq<u8>, algorithm: Option<ChecksumAlgorithm>)
    requires
        facts.len() == 38,
        match algorithm {
            Some(a) => value.len() == digest_size(a) && exists|kind: ChecksumKind|
                facts[37] == #[trigger] checksum_kind_code(kind) * 16 + algorithm_code(a),
            None => value.len() == 0 && facts[37] == 0,
        },
    ensures
        facts_readable(facts, value) ==> {
            let f = facts_read(facts, value);
            f.storable() && facts_of(f) == facts && checksum_of(f) == value
        },
        !facts_readable(facts, value) ==> forall|f: FooterView|
            f.storable() ==> #[trigger] facts_of(f) != facts,
{
    if facts_readable(facts, value) {
        let v = facts_read(facts, value);
        lemma_pow256_values();
        le_bytes_inverts_le_value(facts.subrange(1, 5));
        le_bytes_inverts_le_value(facts.subrange(5, 13));
        le_bytes_inverts_le_value(facts.subrange(13, 21));
        assert(twos(v.mtime_ms) == le_value(facts.subrange(13, 21)));
        assert(descriptor_of(v.checksum) == facts[37]);
        assert(le_bytes(v.count as nat, 4) == facts.subrange(1, 5));
        assert(facts =~= facts.subrange(0, 1) + facts.subrange(1, 5) + facts.subrange(5, 13)
            + facts.subrange(13, 21) + facts.subrange(21, 37) + facts.subrange(37, 38));
        assert(facts.subrange(0, 1) =~= seq![kind_byte(v.kind)]);
        assert(facts.subrange(37, 38) =~= seq![descriptor_of(v.checksum)]);
        assert(checksum_of(v) =~= value);
    } else {
        assert forall|f: FooterView| f.storable() implies #[trigger] facts_of(f) != facts by {
            lemma_facts_fields(f);
        }
    }
}

impl Footer {
    /// Reads stored facts, beside which the bytes of the checksum stand.
    pub(crate) fn from_repr(facts: &[u8], checksum_value: &[u8]) -> (footer: Option<Self>)
        requires
            facts@.len() == 38,
        ensures
            match footer {
                Some(f) => facts_readable(facts@, checksum_value@) && f@ == facts_read(
                    facts@,
                    checksum_value@,
                ),
                None => !facts_readable(facts@, checksum_value@),
            },
    {
        let kind: FooterKind = match facts[0] {
            0 => FooterKind::Single,
            1 => FooterKind::Composite,
            _ => {
                return None;
            },
        };
        let descriptor: u8 = facts[37];
        let algorithm: Option<ChecksumAlgorithm> = match descriptor % 16 {
            1 => Some(ChecksumAlgorithm::Crc32),
            2 => Some(ChecksumAlgorithm::Crc32c),
            3 => Some(ChecksumAlgorithm::Crc64Nvme),
            4 => Some(ChecksumAlgorithm::Sha1),
            5 => Some(ChecksumAlgorithm::Sha256),
            _ => {
                if descriptor != 0 {
                    return None;
                }
                None
            },
        };
        let checksum: Option<StoredChecksum> = match algorithm {
            None => {
                if checksum_value.len() != 0 {
                    return None;
                }
                None
            },
            Some(a) => {
                let checksum_kind: ChecksumKind = match descriptor / 16 {
                    1 => ChecksumKind::FullObject,
                    2 => ChecksumKind::Composite,
                    _ => {
                        return None;
                    },
                };
                let mut value: Vec<u8> = Vec::new();
                value.extend_from_slice(checksum_value);
                assert(value@ =~= checksum_value@);
                StoredChecksum::new(a, checksum_kind, value)
            },
        };
        let mut md5: [u8; 16] = [0;16];
        let mut i: usize = 0;
        while i < 16
            invariant
                i <= 16,
                facts@.len() == 38,
                md5@.len() == 16,
                forall|j: int| 0 <= j < i ==> md5@[j] == facts@[21 + j],
            decreases 16 - i,
        {
            md5[i] = facts[21 + i];
            i += 1;
        }
        let count: u64 = read_le(facts, 1, 4);
        let plen: u64 = read_le(facts, 5, 8);
        let mtime: u64 = read_le(facts, 13, 8);
        proof {
            lemma_pow256_values();
        }
        let footer = Footer {
            kind,
            count: count as u32,
            plen,
            mtime_ms: to_signed(mtime),
            md5,
            checksum,
        };
        assert(footer@.md5 =~= facts@.subrange(21, 37));
        assert(footer@ =~= facts_read(facts@, checksum_value@));
        Some(footer)
    }
}

/// Reads a stored parts table.
fn read_table(bytes: &[u8]) -> (ends: Vec<u64>)
    requires
        bytes@.len() % 8 == 0,
    ensures
        table_of(ends@) == bytes@,
{
    let len: usize = bytes.len();
    let total: usize = len / PART_ENTRY_LEN;
    let mut ends: Vec<u64> = Vec::new();
    let mut i: usize = 0;
    while i < total
        invariant
            i <= total,
            8 * total == len == bytes@.len(),
            ends@.len() == i,
            forall|k: int|
                0 <= k < i ==> le_bytes(#[trigger] ends@[k] as nat, 8) == bytes@.subrange(
                    8 * k,
                    8 * k + 8,
                ),
        decreases total - i,
    {
        let end: u64 = read_le(bytes, i * PART_ENTRY_LEN, PART_ENTRY_LEN);
        proof {
            le_bytes_inverts_le_value(bytes@.subrange(8 * i, 8 * i + 8));
        }
        ends.push(end);
        i += 1;
    }
    proof {
        assert(table_of(ends@).len() == bytes@.len());
        assert forall|j: int| 0 <= j < bytes@.len() implies #[trigger] table_of(ends@)[j]
            == bytes@[j] by {
            let k = j / 8;
            assert(8 * k <= j < 8 * k + 8);
            assert(le_bytes(ends@[k] as nat, 8) == bytes@.subrange(8 * k, 8 * k + 8));
            assert(bytes@.subrange(8 * k, 8 * k + 8)[j % 8] == bytes@[j]);
        }
        assert(table_of(ends@) =~= bytes@);
    }
    ends
}

proof fn lemma_sum_prefix(s: Seq<u64>, i: int)
    requires
        0 <= i <= s.len(),
    ensures
        sum_of(s.take(i)) <= sum_of(s),
    decreases s.len(),
{
    if i < s.len() {
        lemma_sum_prefix(s.drop_last(), i);
        assert(s.drop_last().take(i) =~= s.take(i));
    } else {
        assert(s.take(i) =~= s);
    }
}

/// Two lists of plaintext lengths that both fit the same windows are the same list.
proof fn lemma_plens_are_determined(ends: Seq<u64>, body: u64, p: Seq<u64>, q: Seq<u64>, n: int)
    requires
        0 <= n <= p.len(),
        n <= q.len(),
        forall|i: int| 0 <= i < n ==> part_frames(ends, body, i, #[trigger] p[i]),
        forall|i: int| 0 <= i < n ==> part_frames(ends, body, i, #[trigger] q[i]),
    ensures
        p.take(n) == q.take(n),
{
    assert forall|i: int| 0 <= i < n implies p[i] == q[i] by {
        framed_length_identifies_plaintext_length(p[i] as nat, q[i] as nat, HLEN as nat);
    }
    assert(p.take(n) =~= q.take(n));
}

/// Cuts a body into its parts: `None` where the parts do not tile it to the stamped length.
fn tile(footer: &Footer, ends: &Vec<u64>, body_ct_len: u64) -> (parts: Option<
    (Vec<Range<u64>>, Vec<u64>),
>)
    requires
        ends@.len() == footer.count,
    ensures
        match parts {
            Some((windows, plens)) => {
                &&& tiles(
                    TailView { footer: footer@, ends: ends@, plens: plens@, body_ct_len },
                )
                &&& windows@.len() == ends@.len()
                &&& forall|i: int|
                    0 <= i < ends@.len() ==> (#[trigger] windows@[i]).start == part_start(ends@, i)
                        && windows@[i].end == ends@[i]
            },
            None => forall|plens: Seq<u64>|
                !#[trigger] tiles(
                    TailView { footer: footer@, ends: ends@, plens, body_ct_len },
                ),
        },
{
    let mut windows: Vec<Range<u64>> = Vec::new();
    let mut plens: Vec<u64> = Vec::new();
    if footer.count == 0 {
        return None;
    }
    let mut prev: u64 = 0;
    let mut sum_plen: u64 = 0;
    let mut i: usize = 0;
    while i < ends.len()
        invariant
            i <= ends@.len(),
            ends@.len() == footer.count,
            prev == part_start(ends@, i as int),
            windows@.len() == i,
            plens@.len() == i,
            forall|j: int|
                0 <= j < i ==> part_frames(ends@, body_ct_len, j, #[trigger] plens@[j]),
            forall|j: int|
                0 <= j < i ==> (#[trigger] windows@[j]).start == part_start(ends@, j)
                    && windows@[j].end == ends@[j],
            sum_plen == sum_of(plens@),
        decreases ends@.len() - i,
    {
        let end: u64 = ends[i];
        if end <= prev || end > body_ct_len {
            proof {
                assert forall|q: Seq<u64>|
                    !#[trigger] tiles(
                        TailView { footer: footer@, ends: ends@, plens: q, body_ct_len },
                    ) by {
                    if tiles(TailView { footer: footer@, ends: ends@, plens: q, body_ct_len }) {
                        assert(part_frames(ends@, body_ct_len, i as int, q[i as int]));
                    }
                }
            }
            return None;
        }
        let plen: u64 = match plaintext_len_from(end - prev, HLEN) {
            Some(p) => p,
            None => {
                proof {
                    assert forall|q: Seq<u64>|
                        !#[trigger] tiles(
                            TailView { footer: footer@, ends: ends@, plens: q, body_ct_len },
                        ) by {
                        if tiles(
                            TailView { footer: footer@, ends: ends@, plens: q, body_ct_len },
                        ) {
                            assert(part_frames(ends@, body_ct_len, i as int, q[i as int]));
                            assert(framed(q[i as int] as nat, HLEN as nat) == end - prev);
                        }
                    }
                }
                return None;
            },
        };
        let ghost grown = plens@.push(plen);
        assert(grown.drop_last() =~= plens@);
        sum_plen = match sum_plen.checked_add(plen) {
            Some(sum) => sum,
            None => {
                proof {
                    assert forall|q: Seq<u64>|
                        !#[trigger] tiles(
                            TailView { footer: footer@, ends: ends@, plens: q, body_ct_len },
                        ) by {
                        if tiles(
                            TailView { footer: footer@, ends: ends@, plens: q, body_ct_len },
                        ) {
                            assert(forall|j: int|
                                0 <= j < i + 1 ==> part_frames(
                                    ends@,
                                    body_ct_len,
                                    j,
                                    #[trigger] q[j],
                                ));
                            lemma_plens_are_determined(ends@, body_ct_len, grown, q, i + 1);
                            assert(grown.take(i + 1) =~= grown);
                            lemma_sum_prefix(q, i + 1);
                        }
                    }
                }
                return None;
            },
        };
        windows.push(Range { start: prev, end });
        plens.push(plen);
        prev = end;
        i += 1;
    }
    if prev != body_ct_len || sum_plen != footer.plen {
        proof {
            assert forall|q: Seq<u64>|
                !#[trigger] tiles(
                    TailView { footer: footer@, ends: ends@, plens: q, body_ct_len },
                ) by {
                if tiles(TailView { footer: footer@, ends: ends@, plens: q, body_ct_len }) {
                    lemma_plens_are_determined(ends@, body_ct_len, plens@, q, i as int);
                    assert(plens@.take(i as int) =~= plens@);
                    assert(q.take(i as int) =~= q);
                }
            }
        }
        return None;
    }
    Some((windows, plens))
}

/// [`opens`], folded: the proof below goes by the fields that it implies.
#[verifier::opaque]
spec fn opened_as(
    key: Seq<u8>,
    object_key: Seq<char>,
    object_len: u64,
    tail: Seq<u8>,
    t: TailView,
) -> bool {
    opens(key, object_key, object_len, tail, t)
}

/// Whatever opens a tail has its fields at their offsets from the end.
proof fn lemma_opened_fields(
    key: Seq<u8>,
    object_key: Seq<char>,
    object_len: u64,
    tail: Seq<u8>,
    t: TailView,
)
    requires
        opened_as(key, object_key, object_len, tail, t),
    ensures
        ({
            let n = tail.len();
            let c = checksum_of(t.footer).len();
            let w = 8 * t.ends.len();
            &&& n >= 56 + c + w
            &&& t.body_ct_len + 56 + c + w == object_len
            &&& tail.subrange(n - 2, n as int) == le_bytes(VERSION as nat, 2)
            &&& tail.subrange(n - 18, n - 2) == tag_over(
                key,
                signed_message(
                    object_key,
                    t.body_ct_len as nat,
                    facts_of(t.footer),
                    checksum_of(t.footer),
                    table_of(t.ends),
                ),
            )
            &&& tail.subrange(n - 56, n - 18) == facts_of(t.footer)
            &&& tail.subrange(n - 56 - c, n - 56) == checksum_of(t.footer)
            &&& tail.subrange(n - 56 - c - w, n - 56 - c) == table_of(t.ends)
            &&& tail[n - 19] == descriptor_of(t.footer.checksum)
            &&& c == match t.footer.checksum {
                Some(k) => digest_size(k.algorithm),
                None => 0,
            }
            &&& t.footer.kind is Single ==> w == 0
            &&& t.footer.kind is Composite ==> w == 8 * t.footer.count && tiles(t)
            &&& t.footer.storable()
        }),
{
    reveal(opened_as);
    let message = signed_message(
        object_key,
        t.body_ct_len as nat,
        facts_of(t.footer),
        checksum_of(t.footer),
        table_of(t.ends),
    );
    lemma_facts_fields(t.footer);
    lemma_le_bytes_len(VERSION as nat, 2);
    let trailer = trailer_of(key, object_key, t.body_ct_len as nat, t.footer, t.ends);
    assert(table_of(t.ends).len() == 8 * t.ends.len());
    assert(tag_over(key, message).len() == 16);
    assert(trailer.len() == 8 * t.ends.len() + checksum_of(t.footer).len() + 56);
    lemma_tail_fields(
        tail,
        table_of(t.ends),
        checksum_of(t.footer),
        facts_of(t.footer),
        tag_over(key, message),
        le_bytes(VERSION as nat, 2),
    );
    let n = tail.len();
    assert(tail[n - 19] == tail.subrange(n - 56, n - 18)[37]);
}

/// A tail whose fields stand at their offsets from the end opens.
proof fn lemma_fields_open(
    key: Seq<u8>,
    object_key: Seq<char>,
    object_len: u64,
    tail: Seq<u8>,
    t: TailView,
)
    requires
        t.footer.storable(),
        t.footer.kind is Single ==> t.ends.len() == 0 && t.plens.len() == 0,
        t.footer.kind is Composite ==> tiles(t),
        ({
            let n = tail.len();
            let c = checksum_of(t.footer).len();
            let w = 8 * t.ends.len();
            &&& n >= 56 + c + w
            &&& t.body_ct_len + 56 + c + w == object_len
            &&& tail.subrange(n - 2, n as int) == le_bytes(VERSION as nat, 2)
            &&& tail.subrange(n - 18, n - 2) == tag_over(
                key,
                signed_message(
                    object_key,
                    t.body_ct_len as nat,
                    facts_of(t.footer),
                    checksum_of(t.footer),
                    table_of(t.ends),
                ),
            )
            &&& tail.subrange(n - 56, n - 18) == facts_of(t.footer)
            &&& tail.subrange(n - 56 - c, n - 56) == checksum_of(t.footer)
            &&& tail.subrange(n - 56 - c - w, n - 56 - c) == table_of(t.ends)
        }),
    ensures
        opens(key, object_key, object_len, tail, t),
{
    let message = signed_message(
        object_key,
        t.body_ct_len as nat,
        facts_of(t.footer),
        checksum_of(t.footer),
        table_of(t.ends),
    );
    lemma_facts_fields(t.footer);
    lemma_le_bytes_len(VERSION as nat, 2);
    assert(table_of(t.ends).len() == 8 * t.ends.len());
    assert(tag_over(key, message).len() == 16);
    lemma_tail_fields(
        tail,
        table_of(t.ends),
        checksum_of(t.footer),
        facts_of(t.footer),
        tag_over(key, message),
        le_bytes(VERSION as nat, 2),
    );
}

/// The version, the facts and the checksum stand where a trailer that ends `tail` has them, and
/// the parts table starts at `table_off`.
spec fn facts_stand(tail: Seq<u8>, f: FooterView, checksum_off: int, table_off: int) -> bool {
    let n = tail.len();
    let c = checksum_of(f).len();
    &&& f.storable()
    &&& 0 <= table_off <= checksum_off
    &&& checksum_off + c + 56 == n
    &&& tail.subrange(n - 2, n as int) == le_bytes(VERSION as nat, 2)
    &&& tail.subrange(n - 56, n - 18) == facts_of(f)
    &&& tail.subrange(checksum_off, n - 56) == checksum_of(f)
    &&& checksum_off - table_off == if f.kind is Single {
        0
    } else {
        8 * f.count
    }
}

/// Reads the fields of a trailer that do not depend on the key; `None` where no trailer ends `tail`.
fn read_fields(tail: &[u8]) -> (fields: Option<(Footer, usize, usize)>)
    ensures
        match fields {
            Some((footer, checksum_off, table_off)) => facts_stand(
                tail@,
                footer@,
                checksum_off as int,
                table_off as int,
            ),
            None => forall|key: Seq<u8>, name: Seq<char>, object_len: u64, t: TailView|
                !#[trigger] opened_as(key, name, object_len, tail@, t),
        },
{
    let n: usize = tail.len();
    proof {
        assert forall|key: Seq<u8>, name: Seq<char>, object_len: u64, t: TailView| #[trigger]
            opened_as(key, name, object_len, tail@, t) implies n >= 56 && tail@.subrange(
            n - 2,
            n as int,
        ) == le_bytes(VERSION as nat, 2) && tail@.subrange(n - 56, n - 18) == facts_of(t.footer)
            && t.footer.storable() by {
            lemma_opened_fields(key, name, object_len, tail@, t);
        }
    }
    if n < MIN_SINGLE_TRAILER_LEN {
        return None;
    }
    let ver_off: usize = n - VERSION_LEN;
    proof {
        lemma_pow256_values();
        le_value_inverts_le_bytes(VERSION as nat, 2);
        le_bytes_inverts_le_value(tail@.subrange(n - 2, n as int));
    }
    if read_le(tail, ver_off, VERSION_LEN) != VERSION as u64 {
        return None;
    }
    let tag_off: usize = ver_off - TAG_LEN;
    let facts_off: usize = tag_off - FACTS_LEN;
    let facts: &[u8] = &tail[facts_off..tag_off];
    let algorithm: Option<ChecksumAlgorithm> = match checksum_algorithm(facts[37]) {
        Some(a) => a,
        None => {
            proof {
                assert forall|key: Seq<u8>, name: Seq<char>, object_len: u64, t: TailView|
                    !#[trigger] opened_as(key, name, object_len, tail@, t) by {
                    if opened_as(key, name, object_len, tail@, t) {
                        lemma_facts_fields(t.footer);
                    }
                }
            }
            return None;
        },
    };
    let checksum_len: usize = match algorithm {
        Some(a) => a.digest_len(),
        None => 0,
    };
    if facts_off < checksum_len {
        proof {
            assert forall|key: Seq<u8>, name: Seq<char>, object_len: u64, t: TailView|
                !#[trigger] opened_as(key, name, object_len, tail@, t) by {
                if opened_as(key, name, object_len, tail@, t) {
                    lemma_opened_fields(key, name, object_len, tail@, t);
                    lemma_facts_fields(t.footer);
                    lemma_descriptor_fixes_algorithm(t.footer.checksum, algorithm, facts@[37]);
                }
            }
        }
        return None;
    }
    let checksum_off: usize = facts_off - checksum_len;
    let checksum: &[u8] = &tail[checksum_off..facts_off];
    proof {
        lemma_facts_read(facts@, checksum@, algorithm);
    }
    let footer: Footer = match Footer::from_repr(facts, checksum) {
        Some(f) => f,
        None => {
            return None;
        },
    };
    let table_len: usize = match footer.kind {
        FooterKind::Single => 0,
        FooterKind::Composite => {
            let wanted: u64 = footer.count as u64 * (PART_ENTRY_LEN as u64);
            if wanted > checksum_off as u64 {
                proof {
                    assert forall|key: Seq<u8>, name: Seq<char>, object_len: u64, t: TailView|
                        !#[trigger] opened_as(key, name, object_len, tail@, t) by {
                        if opened_as(key, name, object_len, tail@, t) {
                            lemma_opened_fields(key, name, object_len, tail@, t);
                            lemma_facts_fields(t.footer);
                            lemma_descriptor_fixes_algorithm(
                                t.footer.checksum,
                                algorithm,
                                facts@[37],
                            );
                            stored_footer_is_unambiguous(t.footer, footer@);
                        }
                    }
                }
                return None;
            }
            wanted as usize
        },
    };
    Some((footer, checksum_off, checksum_off - table_len))
}

/// What opens a tail has the facts and the table that stand in it.
proof fn lemma_opened_facts(
    key: Seq<u8>,
    name: Seq<char>,
    object_len: u64,
    tail: Seq<u8>,
    t: TailView,
    f: FooterView,
    checksum_off: int,
    table_off: int,
)
    requires
        opened_as(key, name, object_len, tail, t),
        facts_stand(tail, f, checksum_off, table_off),
    ensures
        t.footer == f,
        table_of(t.ends) == tail.subrange(table_off, checksum_off),
        t.body_ct_len + (tail.len() - table_off) == object_len,
        tail.subrange(tail.len() - 18, tail.len() - 2) == tag_over(
            key,
            signed_message(
                name,
                t.body_ct_len as nat,
                facts_of(f),
                checksum_of(f),
                table_of(t.ends),
            ),
        ),
        f.kind is Composite ==> tiles(t),
{
    lemma_opened_fields(key, name, object_len, tail, t);
    lemma_facts_fields(f);
    lemma_facts_fields(t.footer);
    assert(descriptor_of(f.checksum) == descriptor_of(t.footer.checksum));
    stored_footer_is_unambiguous(t.footer, f);
}

/// Parses and authenticates the trailer from `tail`, the last bytes of the object at `object_key`.
/// `None` means that there is no valid trailer: the object is foreign, cut short or tampered with,
/// or it is a composite whose parts do not tile to the stamped plaintext length.
pub fn decode_tail(
    key: &TrailerKey,
    object_key: &str,
    object_len: u64,
    tail: &[u8],
) -> (opened: Option<Tail>)
    ensures
        match opened {
            Some(t) => opens(key@, object_key@, object_len, tail@, t@)
                && t.windows_are_contiguous(),
            None => forall|t: TailView| !#[trigger] opens(key@, object_key@, object_len, tail@, t),
        },
{
    let ghost k = key@;
    let ghost name = object_key@;
    let n: usize = tail.len();
    proof {
        assert forall|t: TailView| #[trigger] opens(k, name, object_len, tail@, t) implies opened_as(
            k,
            name,
            object_len,
            tail@,
            t,
        ) by {
            reveal(opened_as);
        }
    }
    let (footer, checksum_off, table_off): (Footer, usize, usize) = match read_fields(tail) {
        Some(fields) => fields,
        None => {
            return None;
        },
    };
    let facts: &[u8] = &tail[n - 56..n - 18];
    let checksum: &[u8] = &tail[checksum_off..n - 56];
    let table_bytes: &[u8] = &tail[table_off..checksum_off];
    let stored_tag: &[u8] = &tail[n - 18..n - 2];
    let trailer_total: u64 = (n - table_off) as u64;
    proof {
        assert forall|t: TailView| #[trigger] opened_as(k, name, object_len, tail@, t) implies {
            &&& t.footer == footer@
            &&& table_of(t.ends) == table_bytes@
            &&& t.body_ct_len + trailer_total == object_len
            &&& stored_tag@ == tag_over(
                k,
                signed_message(name, t.body_ct_len as nat, facts@, checksum@, table_bytes@),
            )
            &&& footer.kind is Composite ==> tiles(t)
        } by {
            lemma_opened_facts(
                k,
                name,
                object_len,
                tail@,
                t,
                footer@,
                checksum_off as int,
                table_off as int,
            );
        }
    }
    if object_len < trailer_total {
        return None;
    }
    let body_ct_len: u64 = object_len - trailer_total;
    let expect: Vec<u8> = compute_tag(
        key,
        VERSION,
        object_key,
        body_ct_len,
        facts,
        checksum,
        table_bytes,
    );
    if !constant_time_eq(&expect, stored_tag) {
        return None;
    }
    let ends: Vec<u64> = read_table(table_bytes);
    proof {
        assert(table_of(ends@).len() == 8 * ends@.len());
        assert forall|t: TailView| #[trigger] opened_as(k, name, object_len, tail@, t) implies t.ends
            == ends@ && t.body_ct_len == body_ct_len by {
            stored_table_is_unambiguous(t.ends, ends@);
        }
    }
    match footer.kind {
        FooterKind::Single => {
            let windows: Vec<Range<u64>> = Vec::new();
            let plens: Vec<u64> = Vec::new();
            let opened = Tail { footer, windows, plens, body_ct_len };
            proof {
                assert(opened@.ends =~= ends@);
                lemma_fields_open(k, name, object_len, tail@, opened@);
            }
            Some(opened)
        },
        FooterKind::Composite => {
            match tile(&footer, &ends, body_ct_len) {
                Some((windows, plens)) => {
                    let opened = Tail { footer, windows, plens, body_ct_len };
                    proof {
                        assert(opened@.ends =~= ends@);
                        lemma_fields_open(k, name, object_len, tail@, opened@);
                    }
                    Some(opened)
                },
                None => {
                    proof {
                        assert forall|t: TailView|
                            !#[trigger] opened_as(k, name, object_len, tail@, t) by {
                            if opened_as(k, name, object_len, tail@, t) {
                                assert(t == (TailView {
                                    footer: footer@,
                                    ends: ends@,
                                    plens: t.plens,
                                    body_ct_len,
                                }));
                            }
                        }
                    }
                    None
                },
            }
        },
    }
}

/// A checksum's descriptor fixes its algorithm.
proof fn lemma_descriptor_fixes_algorithm(
    checksum: Option<ChecksumView>,
    algorithm: Option<ChecksumAlgorithm>,
    descriptor: u8,
)
    requires
        descriptor == descriptor_of(checksum),
        match algorithm {
            Some(a) => exists|kind: ChecksumKind|
                descriptor == #[trigger] checksum_kind_code(kind) * 16 + algorithm_code(a),
            None => descriptor == 0,
        },
    ensures
        match (checksum, algorithm) {
            (Some(c), Some(a)) => c.algorithm == a,
            (None, None) => true,
            _ => false,
        },
{
}

// ---- laws -------------------------------------------------------------------------------------

/// A tail opens in at most one way.
pub proof fn a_tail_opens_one_way(
    key: Seq<u8>,
    object_key: Seq<char>,
    object_len: u64,
    tail: Seq<u8>,
    s: TailView,
    t: TailView,
)
    requires
        opens(key, object_key, object_len, tail, s),
        opens(key, object_key, object_len, tail, t),
    ensures
        s == t,
{
    reveal(opened_as);
    lemma_opened_fields(key, object_key, object_len, tail, s);
    lemma_opened_fields(key, object_key, object_len, tail, t);
    assert(s.footer.checksum is Some <==> t.footer.checksum is Some);
    assert(checksum_of(s.footer).len() == checksum_of(t.footer).len());
    stored_footer_is_unambiguous(s.footer, t.footer);
    stored_table_is_unambiguous(s.ends, t.ends);
    if s.footer.kind is Composite {
        lemma_plens_are_determined(s.ends, s.body_ct_len, s.plens, t.plens, s.plens.len() as int);
        assert(s.plens.take(s.plens.len() as int) =~= s.plens);
        assert(t.plens.take(s.plens.len() as int) =~= t.plens);
    }
    assert(s =~= t);
}

/// What was sealed opens: the tail of `body | trailer` opens to the footer and the parts that the
/// trailer was made from, however much of the body the tail holds.
pub proof fn a_sealed_object_opens(
    key: Seq<u8>,
    object_key: Seq<char>,
    object_len: u64,
    body_end: Seq<u8>,
    t: TailView,
)
    requires
        t.footer.storable(),
        t.footer.kind is Single ==> t.ends.len() == 0 && t.plens.len() == 0,
        t.footer.kind is Composite ==> tiles(t),
        t.body_ct_len + trailer_of(
            key,
            object_key,
            t.body_ct_len as nat,
            t.footer,
            t.ends,
        ).len() == object_len,
    ensures
        opens(
            key,
            object_key,
            object_len,
            body_end + trailer_of(key, object_key, t.body_ct_len as nat, t.footer, t.ends),
            t,
        ),
{
    let trailer = trailer_of(key, object_key, t.body_ct_len as nat, t.footer, t.ends);
    let tail = body_end + trailer;
    assert(tail.subrange(tail.len() - trailer.len(), tail.len() as int) =~= trailer);
}

/// A checksum's algorithm and kind are told by one byte, the kind in its upper half and the algorithm in
/// its lower one, and no checksum by zero.
pub proof fn a_descriptor_tells_algorithm_and_kind(c: ChecksumView, algorithm: ChecksumAlgorithm)
    ensures
        descriptor_of(Some(c)) % 16 == algorithm_code(c.algorithm),
        descriptor_of(Some(c)) / 16 == checksum_kind_code(c.kind),
        descriptor_of(None) == 0,
        checksum_kind_code(ChecksumKind::FullObject) == 1,
        checksum_kind_code(ChecksumKind::Composite) == 2,
        algorithm_code(ChecksumAlgorithm::Crc32) == 1 && digest_size(ChecksumAlgorithm::Crc32) == 4,
        algorithm_code(ChecksumAlgorithm::Crc32c) == 2 && digest_size(ChecksumAlgorithm::Crc32c)
            == 4,
        algorithm_code(ChecksumAlgorithm::Crc64Nvme) == 3 && digest_size(
            ChecksumAlgorithm::Crc64Nvme,
        ) == 8,
        algorithm_code(ChecksumAlgorithm::Sha1) == 4 && digest_size(ChecksumAlgorithm::Sha1) == 20,
        algorithm_code(ChecksumAlgorithm::Sha256) == 5 && digest_size(ChecksumAlgorithm::Sha256)
            == 32,
        algorithm_named(algorithm_code(algorithm)) == Some(algorithm),
{
}

/// A trailer is read from its end: the version, the tag, the facts, the checksum and the table, and in
/// the facts the kind, the count, the length, the time, the digest and the descriptor.
pub proof fn a_trailer_has_its_fields_in_their_places(
    key: Seq<u8>,
    object_key: Seq<char>,
    body_ct_len: nat,
    f: FooterView,
    ends: Seq<u64>,
)
    requires
        f.storable(),
    ensures
        ({
            let b = trailer_of(key, object_key, body_ct_len, f, ends);
            let n = b.len();
            let c: int = match f.checksum {
                Some(k) => digest_size(k.algorithm) as int,
                None => 0,
            };
            &&& n == 8 * ends.len() + c + 56
            &&& b.subrange(n - 2, n as int) == le_bytes(1, 2)
            &&& b[n - 56] == 0 <==> f.kind is Single
            &&& b[n - 56] == 1 <==> f.kind is Composite
            &&& b.subrange(n - 55, n - 51) == le_bytes(f.count as nat, 4)
            &&& b.subrange(n - 51, n - 43) == le_bytes(f.plen as nat, 8)
            &&& b.subrange(n - 43, n - 35) == le_bytes(twos(f.mtime_ms), 8)
            &&& b.subrange(n - 35, n - 19) == f.md5
            &&& b[n - 19] == 0 <==> f.checksum is None
            &&& f.checksum is Some ==> b.subrange(n - 56 - c, n - 56) == f.checksum->0.value
            &&& b.subrange(0, n - 56 - c) == table_of(ends)
        }),
{
    let b = trailer_of(key, object_key, body_ct_len, f, ends);
    let n = b.len();
    let facts = facts_of(f);
    let tag = tag_over(
        key,
        signed_message(object_key, body_ct_len, facts, checksum_of(f), table_of(ends)),
    );
    lemma_facts_fields(f);
    lemma_le_bytes_len(VERSION as nat, 2);
    lemma_tail_fields(b, table_of(ends), checksum_of(f), facts, tag, le_bytes(VERSION as nat, 2));
    assert(b.subrange(n - b.len(), n as int) =~= b);
    let own = b.subrange(n - 56, n - 18);
    assert(own == facts);
    assert(b[n - 56] == own[0]);
    assert(b[n - 19] == own[37]);
    assert(b.subrange(n - 55, n - 51) =~= own.subrange(1, 5));
    assert(b.subrange(n - 51, n - 43) =~= own.subrange(5, 13));
    assert(b.subrange(n - 43, n - 35) =~= own.subrange(13, 21));
    assert(b.subrange(n - 35, n - 19) =~= own.subrange(21, 37));
}

/// The tag is the first half of the code of a message that holds everything it vouches for: the version,
/// the length of the body, the facts, the checksum, the table and the object's key.  Two messages whose
/// parts are as long as each other's are the same only where each part is.
pub proof fn a_tag_vouches_for_every_part(
    key: Seq<u8>,
    a_key: Seq<char>,
    b_key: Seq<char>,
    a_len: nat,
    b_len: nat,
    a: (Seq<u8>, Seq<u8>, Seq<u8>),
    b: (Seq<u8>, Seq<u8>, Seq<u8>),
)
    requires
        a_len <= u64::MAX,
        b_len <= u64::MAX,
        a.0.len() == b.0.len(),
        a.1.len() == b.1.len(),
        a.2.len() == b.2.len(),
        signed_message(a_key, a_len, a.0, a.1, a.2) == signed_message(b_key, b_len, b.0, b.1, b.2),
    ensures
        a_len == b_len,
        a == b,
        encode_utf8(a_key) == encode_utf8(b_key),
        signed_message(a_key, a_len, a.0, a.1, a.2).subrange(0, 2) == le_bytes(1, 2),
        tag_over(key, signed_message(a_key, a_len, a.0, a.1, a.2)).len() == 16,
        forall|i: int|
            0 <= i < 16 ==> #[trigger] tag_over(key, signed_message(a_key, a_len, a.0, a.1, a.2))[i]
                == hmac_sha256_of(key, signed_message(a_key, a_len, a.0, a.1, a.2))[i],
{
    let m = signed_message(a_key, a_len, a.0, a.1, a.2);
    let w = signed_message(b_key, b_len, b.0, b.1, b.2);
    lemma_le_bytes_len(VERSION as nat, 2);
    lemma_le_bytes_len(a_len, 8);
    lemma_le_bytes_len(b_len, 8);
    crate::le::lemma_pow256_values();
    let (x, y, z) = (a.0.len(), a.1.len(), a.2.len());
    assert(m.subrange(0, 2) =~= le_bytes(VERSION as nat, 2));
    assert(m.subrange(2, 10) =~= le_bytes(a_len, 8));
    assert(w.subrange(2, 10) =~= le_bytes(b_len, 8));
    lemma_le_injective(a_len, b_len, 8);
    assert(m.subrange(10, (10 + x) as int) =~= a.0);
    assert(w.subrange(10, (10 + x) as int) =~= b.0);
    assert(m.subrange((10 + x) as int, (10 + x + y) as int) =~= a.1);
    assert(w.subrange((10 + x) as int, (10 + x + y) as int) =~= b.1);
    assert(m.subrange((10 + x + y) as int, (10 + x + y + z) as int) =~= a.2);
    assert(w.subrange((10 + x + y) as int, (10 + x + y + z) as int) =~= b.2);
    assert(m.skip((10 + x + y + z) as int) =~= encode_utf8(a_key));
    assert(w.skip((10 + x + y + z) as int) =~= encode_utf8(b_key));
}

/// A table is written end by end, eight bytes each, lowest byte first.
pub proof fn a_table_is_written_end_by_end(a: Seq<u64>, b: Seq<u64>, one: u64)
    ensures
        table_of(a + b) == table_of(a) + table_of(b),
        table_of(seq![one]) == le_bytes(one as nat, 8),
        table_of(Seq::empty()).len() == 0,
{
    lemma_le_bytes_len(one as nat, 8);
    assert(table_of(seq![one]) =~= le_bytes(one as nat, 8));
    let whole = table_of(a + b);
    let split = table_of(a) + table_of(b);
    assert forall|i: int| 0 <= i < whole.len() implies whole[i] == split[i] by {
        if i >= 8 * a.len() {
            assert((i - 8 * a.len()) / 8 == i / 8 - a.len());
            assert((i - 8 * a.len()) % 8 == i % 8);
        }
    }
    assert(whole =~= split);
}

/// What opens was sealed: the object is a body and, behind it, the trailer for its own key, length and
/// facts; and the parts of a composite object stand one behind the other, none of them empty, each the
/// file of its own length, and together they are the whole body.
pub proof fn what_opens_was_sealed(
    key: Seq<u8>,
    object_key: Seq<char>,
    object_len: u64,
    tail: Seq<u8>,
    t: TailView,
    i: int,
)
    requires
        opens(key, object_key, object_len, tail, t),
    ensures
        ({
            let trailer = trailer_of(key, object_key, t.body_ct_len as nat, t.footer, t.ends);
            &&& object_len == t.body_ct_len + trailer.len()
            &&& exists|front: Seq<u8>| tail == #[trigger] (front + trailer)
            &&& t.footer.md5.len() == 16
            &&& t.footer.kind is Single ==> t.ends.len() == 0
            &&& t.footer.kind is Composite ==> t.ends.len() == t.footer.count && t.plens.len()
                == t.ends.len() && t.ends.len() > 0 && t.ends.last() == t.body_ct_len && sum_of(
                t.plens,
            ) == t.footer.plen
            &&& t.footer.kind is Composite && i == 0 ==> t.ends[i] == framed(
                t.plens[i] as nat,
                149,
            )
            &&& t.footer.kind is Composite && 0 < i < t.ends.len() ==> t.ends[i] == t.ends[i - 1]
                + framed(t.plens[i] as nat, 149)
        }),
{
    let trailer = trailer_of(key, object_key, t.body_ct_len as nat, t.footer, t.ends);
    let front = tail.take(tail.len() - trailer.len());
    assert(tail =~= front + trailer);
    if t.footer.kind is Composite && 0 <= i < t.ends.len() {
        assert(part_frames(t.ends, t.body_ct_len, i, t.plens[i]));
    }
}

/// A part starts where the one before it ends, and the first at the front.
pub proof fn a_part_starts_where_the_one_before_it_ends(ends: Seq<u64>, i: int)
    requires
        0 <= i < ends.len(),
    ensures
        part_start(ends, 0) == 0,
        part_start(ends, i + 1) == ends[i],
{
}

/// The ETag of a single object is its digest, and that of a composite one its digest, a dash and the
/// number of its parts.
pub proof fn a_trailer_gives_the_clients_etag(f: FooterView)
    ensures
        f.kind is Single ==> etag_of(f) == hex_of(f.md5),
        f.kind is Composite ==> etag_of(f) == hex_of(f.md5) + seq!['-'] + decimal(f.count as nat),
{
    assert(hex_of(f.md5).push('-') =~= hex_of(f.md5) + seq!['-']);
}

/// The lengths of the parts add up.
pub proof fn lengths_of_parts_add_up(
    a: Seq<u64>,
    b: Seq<u64>,
    one: u64,
)
    ensures
        sum_of(a + b) == sum_of(a) + sum_of(b),
        sum_of(Seq::<u64>::empty()) == 0,
        sum_of(seq![one]) == one,
    decreases b.len(),
{
    assert(seq![one].drop_last() =~= Seq::<u64>::empty());
    assert(seq![one].last() == one);
    reveal_with_fuel(sum_of, 2);
    if b.len() == 0 {
        assert(a + b =~= a);
        
    } else {
        lengths_of_parts_add_up(a, b.drop_last(), one);
        assert((a + b).drop_last() =~= a + b.drop_last());
        assert((a + b).last() == b.last());
        
    }
}

/// What is said of a footer, of a checksum and of a tail is said of their own fields.
pub proof fn a_tail_is_seen_as_it_is(c: StoredChecksum, f: Footer, t: Tail, i: int)
    ensures
        c@.algorithm == c.algorithm && c@.kind == c.kind && c@.value == c.value@,
        f@.kind == f.kind && f@.count == f.count && f@.plen == f.plen && f@.mtime_ms == f.mtime_ms
            && f@.md5 == f.md5@,
        f.checksum is Some ==> f@.checksum == Some(f.checksum->0@),
        f.checksum is None ==> f@.checksum is None,
        t@.footer == t.footer@ && t@.plens == t.plens@ && t@.body_ct_len == t.body_ct_len,
        t@.ends.len() == t.windows@.len(),
        0 <= i < t.windows@.len() ==> t@.ends[i] == t.windows@[i].end,
        t.windows_are_contiguous() && t.windows@.len() > 0 ==> t.windows@[0].start == 0,
        t.windows_are_contiguous() && 0 < i < t.windows@.len() ==> t.windows@[i].start
            == t.windows@[i - 1].end,
{
}

/// The longest tail that is read holds every trailer whole: that of a single object with any checksum,
/// and that of a composite one with as many parts as an object may have.
pub proof fn the_longest_tail_holds_every_trailer(
    key: Seq<u8>,
    object_key: Seq<char>,
    body_ct_len: nat,
    f: FooterView,
    ends: Seq<u64>,
)
    requires
        f.storable(),
    ensures
        ends.len() == 0 ==> trailer_of(key, object_key, body_ct_len, f, ends).len()
            <= MAX_SINGLE_TRAILER_LEN,
        ends.len() <= 10_000 ==> trailer_of(key, object_key, body_ct_len, f, ends).len()
            <= MAX_TAIL_LEN,
        MAX_TAIL_LEN == MAX_SINGLE_TRAILER_LEN + 8 * MAX_PARTS,
{
    a_trailer_has_its_fields_in_their_places(key, object_key, body_ct_len, f, ends);
}

/// Stored facts read back as what was stored.
pub proof fn stored_facts_read_back(f: FooterView)
    requires
        f.storable(),
    ensures
        facts_readable(facts_of(f), checksum_of(f)),
        facts_read(facts_of(f), checksum_of(f)) == f,
{
    let algorithm = match f.checksum {
        Some(c) => Some(c.algorithm),
        None => None,
    };
    lemma_facts_fields(f);
    if let Some(c) = f.checksum {
        assert(facts_of(f)[37] == checksum_kind_code(c.kind) * 16 + algorithm_code(c.algorithm));
    }
    lemma_facts_read(facts_of(f), checksum_of(f), algorithm);
    assert(facts_readable(facts_of(f), checksum_of(f)));
    stored_footer_is_unambiguous(facts_read(facts_of(f), checksum_of(f)), f);
}

} // verus!
