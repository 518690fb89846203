//! Tombstones: the fixed bodies and ETags that mark a cache entry as internal, so that a listing
//! can classify every entry by its size and ETag alone.

use crate::codes::{hex_encode, hex_of};
use crate::digest::{md5_digest, md5_of};
use crate::meta::metadata::Metadata;
use crate::text::same_text;
use vstd::prelude::*;
use vstd::utf8::encode_utf8;

verus! {

/// The name of the metadata value that marks a tombstone.
pub const TOMB: &'static str = "tomb";

pub const TOMB_EVICT: &'static str = "evict";

pub const TOMB_TRANSIT: &'static str = "transit";

/// The body of an eviction tombstone.
pub const EVICT_SENTINEL: [u8; 16] = [
    0xe4, 0x80, 0xae, 0x85, 0xd6, 0xe7, 0x58, 0x9c, 0x7e, 0x07, 0xb5, 0xa5, 0xac, 0x39, 0x37, 0xaa,
];

/// The body that no client object may have, since its marker would read as that of a deletion.
pub const DELETE_MARKER_SENTINEL: [u8; 16] = [
    0x64, 0x58, 0x6a, 0xf5, 0x7f, 0xc3, 0xf6, 0x22, 0xf3, 0x00, 0xd3, 0xbb, 0x42, 0xb8, 0x72, 0x6d,
];

/// The body of a key that is in the middle of a change.
pub const TRANSIT_SENTINEL: [u8; 16] = [
    0xd9, 0xa5, 0xc8, 0x7a, 0x7c, 0x7e, 0x03, 0xc8, 0x04, 0x6c, 0x1a, 0xbf, 0x7c, 0x49, 0x0c, 0x65,
];

#[derive(Clone, Copy, Debug, PartialEq, Eq, Structural)]
pub enum TombKind {
    Evict,
    Transit,
}

/// The body of a tombstone of a kind.
pub open spec fn sentinel_of(kind: TombKind) -> Seq<u8> {
    match kind {
        TombKind::Evict => EVICT_SENTINEL@,
        TombKind::Transit => TRANSIT_SENTINEL@,
    }
}

/// The ETag of some bytes: the hexadecimal form of their MD5.
pub open spec fn etag_of_body(body: Seq<u8>) -> Seq<char> {
    hex_of(md5_of(body))
}

/// The kind of tombstone that an entry of 16 bytes with an ETag is.
pub open spec fn classified(size: int, etag: Seq<char>) -> Option<TombKind> {
    if size == 16 && etag == etag_of_body(sentinel_of(TombKind::Evict)) {
        Some(TombKind::Evict)
    } else if size == 16 && etag == etag_of_body(sentinel_of(TombKind::Transit)) {
        Some(TombKind::Transit)
    } else {
        None
    }
}

/// The kind of tombstone that metadata names.
pub open spec fn tomb_named(metadata: Map<Seq<char>, Seq<char>>) -> Option<TombKind> {
    if metadata.contains_key(TOMB@) && metadata[TOMB@] == TOMB_EVICT@ {
        Some(TombKind::Evict)
    } else if metadata.contains_key(TOMB@) && metadata[TOMB@] == TOMB_TRANSIT@ {
        Some(TombKind::Transit)
    } else {
        None
    }
}

impl TombKind {
    pub fn as_str(self) -> (name: &'static str)
        ensures
            name@ == (match self {
                TombKind::Evict => TOMB_EVICT@,
                TombKind::Transit => TOMB_TRANSIT@,
            }),
    {
        match self {
            TombKind::Evict => TOMB_EVICT,
            TombKind::Transit => TOMB_TRANSIT,
        }
    }

    /// The fixed body of a tombstone of this kind.
    pub fn sentinel(self) -> (body: [u8; 16])
        ensures
            body@ == sentinel_of(self),
    {
        match self {
            TombKind::Evict => EVICT_SENTINEL,
            TombKind::Transit => TRANSIT_SENTINEL,
        }
    }

    /// The ETag of a tombstone of this kind: what a listing classifies by, and what conditional
    /// writes compare with.
    pub fn sentinel_etag(self) -> (etag: String)
        ensures
            etag@ == etag_of_body(sentinel_of(self)),
    {
        hex_encode(&md5_digest(&self.sentinel()))
    }
}

fn same_bytes(a: &[u8], b: &[u8]) -> (same: bool)
    ensures
        same == (a@ == b@),
{
    if a.len() != b.len() {
        return false;
    }
    let mut i: usize = 0;
    while i < a.len()
        invariant
            i <= a@.len(),
            a@.len() == b@.len(),
            forall|j: int| 0 <= j < i ==> a@[j] == b@[j],
        decreases a@.len() - i,
    {
        if a[i] != b[i] {
            return false;
        }
        i += 1;
    }
    assert(a@ =~= b@);
    true
}

/// Whether a body is one of the reserved ones, which no client object may have.
pub fn is_reserved_sentinel(body: &[u8]) -> (reserved: bool)
    ensures
        reserved == (body@ == EVICT_SENTINEL@ || body@ == DELETE_MARKER_SENTINEL@ || body@
            == TRANSIT_SENTINEL@),
{
    same_bytes(body, &EVICT_SENTINEL) || same_bytes(body, &DELETE_MARKER_SENTINEL) || same_bytes(
        body,
        &TRANSIT_SENTINEL,
    )
}

/// Classifies a listed cache entry by its size and ETag; `None` is a live body.
pub fn classify_entry(size: i64, etag: &str) -> (kind: Option<TombKind>)
    ensures
        kind == classified(size as int, etag@),
{
    if size != 16 {
        return None;
    }
    if same_text(TombKind::Evict.sentinel_etag().as_str(), etag) {
        return Some(TombKind::Evict);
    }
    if same_text(TombKind::Transit.sentinel_etag().as_str(), etag) {
        return Some(TombKind::Transit);
    }
    None
}

/// The kind of tombstone that an object's metadata names.
pub fn tomb_kind(metadata: &Metadata) -> (kind: Option<TombKind>)
    requires
        metadata.wf(),
    ensures
        kind == tomb_named(metadata@),
{
    match metadata.get(TOMB) {
        Some(name) => {
            if same_text(name.as_str(), TOMB_EVICT) {
                Some(TombKind::Evict)
            } else if same_text(name.as_str(), TOMB_TRANSIT) {
                Some(TombKind::Transit)
            } else {
                None
            }
        },
        None => None,
    }
}

/// Whether metadata marks a tombstone, of whatever kind.
pub fn is_tombstone(metadata: &Metadata) -> (tombstone: bool)
    requires
        metadata.wf(),
    ensures
        tombstone == metadata@.contains_key(TOMB@),
{
    metadata.contains_key(TOMB)
}

pub fn evict_sentinel_etag() -> (etag: String)
    ensures
        etag@ == etag_of_body(EVICT_SENTINEL@),
{
    TombKind::Evict.sentinel_etag()
}

pub fn transit_sentinel_etag() -> (etag: String)
    ensures
        etag@ == etag_of_body(TRANSIT_SENTINEL@),
{
    TombKind::Transit.sentinel_etag()
}

/// The body of a marker that records a deletion.
pub fn delete_marker_body() -> (body: String)
    ensures
        body@ == etag_of_body(DELETE_MARKER_SENTINEL@),
{
    hex_encode(&md5_digest(&DELETE_MARKER_SENTINEL))
}

/// The ETag of a marker that records a deletion: what identifies it in a listing.
pub fn delete_marker_etag() -> (etag: String)
    ensures
        etag@ == etag_of_body(encode_utf8(etag_of_body(DELETE_MARKER_SENTINEL@))),
{
    hex_encode(&md5_digest(delete_marker_body().as_str().as_bytes()))
}

/// Whether a client ETag is that of a composite: it carries a `-`.
pub fn is_composite_etag(cetag: &str) -> (composite: bool)
    ensures
        composite == cetag@.contains('-'),
{
    let chars: Vec<char> = crate::text::chars_of(cetag);
    let mut i: usize = 0;
    while i < chars.len()
        invariant
            i <= chars@.len(),
            chars@ == cetag@,
            forall|j: int| 0 <= j < i ==> chars@[j] != '-',
        decreases chars@.len() - i,
    {
        if chars[i] == '-' {
            assert(cetag@[i as int] == '-');
            return true;
        }
        i += 1;
    }
    false
}

// ---- laws -------------------------------------------------------------------------------------

/// The three reserved bodies differ from one another.
pub proof fn sentinels_are_distinct()
    ensures
        EVICT_SENTINEL@ != TRANSIT_SENTINEL@,
        EVICT_SENTINEL@ != DELETE_MARKER_SENTINEL@,
        TRANSIT_SENTINEL@ != DELETE_MARKER_SENTINEL@,
{
    assert(EVICT_SENTINEL@[0] == 0xe4u8);
    assert(TRANSIT_SENTINEL@[0] == 0xd9u8);
    assert(DELETE_MARKER_SENTINEL@[0] == 0x64u8);
}

/// An entry is classified as a tombstone only by a 16-byte size and a sentinel's ETag, so a live
/// body is never taken for one unless its MD5 is a sentinel's.
pub proof fn only_sentinel_entries_classify(size: int, body: Seq<u8>)
    requires
        classified(size, etag_of_body(body)) is Some,
    ensures
        size == 16,
        exists|kind: TombKind| etag_of_body(body) == #[trigger] etag_of_body(sentinel_of(kind)),
{
    let kind = classified(size, etag_of_body(body))->0;
    assert(etag_of_body(body) == etag_of_body(sentinel_of(kind)));
}

/// A listed entry is a tombstone exactly where it has the length and the ETag of a tombstone's body.
pub proof fn a_tombstone_is_known_by_its_body(size: int, etag: Seq<char>)
    ensures
        classified(size, etag) == Some(TombKind::Evict) <==> size == EVICT_SENTINEL@.len() && etag
            == hex_of(md5_of(EVICT_SENTINEL@)),
        classified(size, etag) == Some(TombKind::Transit) <==> size == TRANSIT_SENTINEL@.len()
            && etag == hex_of(md5_of(TRANSIT_SENTINEL@)) && etag != hex_of(md5_of(EVICT_SENTINEL@)),
{
}

/// Metadata names a tombstone by the word under the tombstone's name, and by nothing else.
pub proof fn a_tombstone_is_named_by_its_word(
    md: Map<Seq<char>, Seq<char>>,
    name: Seq<char>,
    word: Seq<char>,
)
    ensures
        tomb_named(md.insert(TOMB@, TOMB_EVICT@)) == Some(TombKind::Evict),
        tomb_named(md.insert(TOMB@, TOMB_TRANSIT@)) == Some(TombKind::Transit),
        tomb_named(md.remove(TOMB@)) is None,
        word != TOMB_EVICT@ && word != TOMB_TRANSIT@ ==> tomb_named(md.insert(TOMB@, word)) is None,
        name != TOMB@ ==> tomb_named(md.insert(name, word)) == tomb_named(md),
{
    reveal_strlit("evict");
    reveal_strlit("transit");
    assert(TOMB_EVICT@.len() != TOMB_TRANSIT@.len());
}

} // verus!
