//! The names of the gateway's own objects.
//!
//! Beside the client keys, two control bytes that no client key may contain carve three ranges
//! that never interleave:
//!
//! * `0x01 0x01 tag ...`: upload records, markers and shadow bodies;
//! * `0x01 key 0x01 facts`: the facts twin of a key;
//! * `key`, bare: the pending marker of a key.
//!
//! They sort in this order, so one listing from a fixed name on reaches the pending markers alone.

use crate::codes::{b64url, b64url_decode, b64url_encode, string_from_utf8};
use crate::digest::{sha256_digest, sha256_of};
use crate::meta::admission::{admissible, validate_client_key};
use crate::order::largest;
use crate::text::{
    chars_of, has_prefix, hex_digits, padded, parsed_signed, parsed_unsigned, push_hex,
    push_padded, read_i32, read_unsigned, text_between,
};
use vstd::prelude::*;
use vstd::string::{StrSliceExecFns, StringExecFns};
use vstd::utf8::encode_utf8;

verus! {

/// The control character.
pub const CONTROL: char = '\u{1}';

pub const RECENCY_PREFIX: &'static str = "recency/";

/// The highest part number that a client may use.
pub const MAX_CLIENT_PART: i32 = 10_000;

/// The name of the metadata value on a shadow body that holds the client key.
pub const SHADOW_CLIENT_KEY: &'static str = "ck";

// ---- the doubled lead -------------------------------------------------------------------------

/// The name that two control characters and a tag make.
pub open spec fn tagged(tag: char) -> Seq<char> {
    seq![CONTROL, CONTROL, tag]
}

/// What every record of an upload begins with.
pub open spec fn upload_range(upload_id: Seq<char>) -> Seq<char> {
    tagged('m') + upload_id + seq![CONTROL]
}

fn tagged_name(tag: char) -> (name: String)
    ensures
        name@ == tagged(tag),
{
    let mut name: String = String::new();
    name.push(CONTROL);
    name.push(CONTROL);
    name.push(tag);
    assert(name@ =~= tagged(tag));
    name
}

/// The marker, on the remote, of a violated invariant.
pub fn halt_marker_key() -> (key: String)
    ensures
        key@ == tagged('h'),
{
    tagged_name('h')
}

/// Whether a key of a remote listing is the gateway's own and not a client's.
pub fn is_reserved_remote_key(key: &str) -> (reserved: bool)
    ensures
        reserved == (key@.len() > 0 && key@[0] == CONTROL),
{
    let chars: Vec<char> = chars_of(key);
    chars.len() > 0 && chars[0] == CONTROL
}

/// The marker of a bucket whose cache namespace is authoritative.
pub fn sync_marker_key() -> (key: String)
    ensures
        key@ == tagged('s'),
{
    tagged_name('s')
}

/// The marker of a bucket whose pending markers are a complete account of its pending writes.
pub fn clean_marker_key() -> (key: String)
    ensures
        key@ == tagged('c'),
{
    tagged_name('c')
}

/// The marker of a bucket without an unreclaimed orphaned shadow.
pub fn shadow_clean_marker_key() -> (key: String)
    ensures
        key@ == tagged('o'),
{
    tagged_name('o')
}

/// What all upload records begin with.
pub fn mpu_scan_prefix() -> (prefix: String)
    ensures
        prefix@ == tagged('m'),
{
    tagged_name('m')
}

/// What all shadow bodies begin with.
pub fn shadow_scan_prefix() -> (prefix: String)
    ensures
        prefix@ == tagged('b'),
{
    tagged_name('b')
}

/// What every record of one upload begins with.
pub fn mpu_prefix(upload_id: &str) -> (prefix: String)
    ensures
        prefix@ == upload_range(upload_id@),
{
    let mut name: String = tagged_name('m');
    name.append(upload_id);
    name.push(CONTROL);
    assert(name@ =~= upload_range(upload_id@));
    name
}

/// The upload's own record.
pub fn mpu_upload_key(upload_id: &str) -> (key: String)
    ensures
        key@ == upload_range(upload_id@).push('u'),
{
    let mut name: String = mpu_prefix(upload_id);
    name.push('u');
    name
}

/// The record that a part was replaced by its folded form.
pub fn mpu_fold_key(upload_id: &str) -> (key: String)
    ensures
        key@ == upload_range(upload_id@).push('f'),
{
    let mut name: String = mpu_prefix(upload_id);
    name.push('f');
    name
}

// ---- scanning ---------------------------------------------------------------------------------

/// Where a character first stands; the length, where it does not.
pub open spec fn first_at(s: Seq<char>, c: char) -> int
    decreases s.len(),
{
    if s.len() == 0 || s[0] == c {
        0
    } else {
        1 + first_at(s.skip(1), c)
    }
}

/// What stands behind the last of a character; everything, where there is none.
pub open spec fn after_last(s: Seq<char>, c: char) -> Seq<char>
    decreases s.len(),
{
    if s.len() == 0 || s.last() == c {
        Seq::empty()
    } else {
        after_last(s.drop_last(), c).push(s.last())
    }
}

pub proof fn lemma_first_at(s: Seq<char>, c: char, i: int)
    requires
        0 <= i <= s.len(),
        forall|j: int| 0 <= j < i ==> s[j] != c,
        i < s.len() ==> s[i] == c,
    ensures
        first_at(s, c) == i,
    decreases s.len(),
{
    if i > 0 {
        assert forall|j: int| 0 <= j < i - 1 implies s.skip(1)[j] != c by {
            assert(s.skip(1)[j] == s[j + 1]);
        }
        lemma_first_at(s.skip(1), c, i - 1);
    }
}

pub proof fn lemma_after_last(s: Seq<char>, c: char, i: int)
    requires
        0 <= i <= s.len(),
        forall|j: int| i <= j < s.len() ==> s[j] != c,
        i > 0 ==> s[i - 1] == c,
    ensures
        after_last(s, c) == s.skip(i),
    decreases s.len(),
{
    if i < s.len() {
        lemma_after_last(s.drop_last(), c, i);
        assert(s.drop_last().skip(i).push(s.last()) =~= s.skip(i));
    } else {
        assert(s.skip(i) =~= Seq::<char>::empty());
    }
}

/// The index of the first `c` from `from` on, or the length.
fn find_from(chars: &Vec<char>, from: usize, c: char) -> (at: usize)
    requires
        from <= chars@.len(),
    ensures
        from <= at <= chars@.len(),
        at == from + first_at(chars@.skip(from as int), c),
        at < chars@.len() ==> chars@[at as int] == c,
        forall|j: int| from <= j < at ==> chars@[j] != c,
{
    let mut i: usize = from;
    while i < chars.len()
        invariant_except_break
            from <= i <= chars@.len(),
            forall|j: int| from <= j < i ==> chars@[j] != c,
        ensures
            from <= i <= chars@.len(),
            forall|j: int| from <= j < i ==> chars@[j] != c,
            i < chars@.len() ==> chars@[i as int] == c,
        decreases chars@.len() - i,
    {
        if chars[i] == c {
            break;
        }
        i += 1;
    }
    proof {
        lemma_first_at(chars@.skip(from as int), c, i - from);
    }
    i
}

// ---- upload ids -------------------------------------------------------------------------------

/// The upload that a record belongs to.
pub open spec fn upload_of(key: Seq<char>) -> Option<Seq<char>> {
    if tagged('m').is_prefix_of(key) {
        let rest = key.skip(3);
        let id = rest.take(first_at(rest, CONTROL));
        if id.len() > 0 {
            Some(id)
        } else {
            None
        }
    } else {
        None
    }
}

/// The upload that a record belongs to; `None` for a key that is no upload record.
pub fn parse_mpu_upload_id(key: &str) -> (id: Option<&str>)
    ensures
        match id {
            Some(id) => upload_of(key@) == Some(id@),
            None => upload_of(key@) is None,
        },
{
    let chars: Vec<char> = chars_of(key);
    if chars.len() < 3 || chars[0] != CONTROL || chars[1] != CONTROL || chars[2] != 'm' {
        proof {
            if tagged('m').is_prefix_of(key@) {
                assert(key@.subrange(0, 3)[0] == CONTROL && key@.subrange(0, 3)[1] == CONTROL
                    && key@.subrange(0, 3)[2] == 'm');
            }
        }
        return None;
    }
    assert(key@.subrange(0, 3) =~= tagged('m'));
    let end: usize = find_from(&chars, 3, CONTROL);
    assert(key@.skip(3).take(end - 3) =~= key@.subrange(3, end as int));
    if end == 3 {
        return None;
    }
    Some(key.substring_char(3, end))
}

// ---- parts ------------------------------------------------------------------------------------

/// The facts that the record of an uploaded part carries in its key.
#[derive(Clone, Copy, Debug, PartialEq, Eq)]
pub struct MpuPart<'a> {
    pub part_number: i32,
    /// The remote's ETag of the part.
    pub retag: &'a str,
    /// The MD5 of the part's plaintext.
    pub pmd5: &'a str,
    /// Names the part's retained ciphertext; empty where it was not retained.
    pub stash_nonce: &'a str,
}

/// A text without the quotes around it.
pub open spec fn unquoted(s: Seq<char>) -> Seq<char>
    decreases s.len(),
{
    if s.len() > 0 && s[0] == '"' {
        unquoted(s.skip(1))
    } else if s.len() > 0 && s.last() == '"' {
        unquoted(s.drop_last())
    } else {
        s
    }
}

/// The name of a part's record.
pub open spec fn part_record(
    upload_id: Seq<char>,
    part_number: int,
    retag: Seq<char>,
    pmd5: Seq<char>,
    stash_nonce: Seq<char>,
) -> Seq<char> {
    upload_range(upload_id) + (seq!['p'] + padded(part_number, 5) + seq![';'] + unquoted(retag)
        + seq![';'] + pmd5 + seq![';'] + stash_nonce)
}

/// What stands before and behind the first `;`.
pub open spec fn cut(s: Seq<char>) -> Option<(Seq<char>, Seq<char>)> {
    let at = first_at(s, ';');
    if at < s.len() {
        Some((s.take(at), s.skip(at + 1)))
    } else {
        None
    }
}

/// What the fields of a part's record say.
pub open spec fn fields_recorded(s: Seq<char>) -> Option<(int, Seq<char>, Seq<char>, Seq<char>)> {
    match cut(s) {
        Some((number, s1)) => match cut(s1) {
            Some((retag, s2)) => match cut(s2) {
                Some((pmd5, nonce)) => match parsed_signed(
                    number,
                    i32::MIN as int,
                    i32::MAX as int,
                ) {
                    Some(n) if pmd5.len() > 0 => Some((n, retag, pmd5, nonce)),
                    _ => None,
                },
                None => None,
            },
            None => None,
        },
        None => None,
    }
}

/// What a part's record says: number, remote ETag, plaintext MD5 and nonce.
pub open spec fn part_recorded(key: Seq<char>) -> Option<(int, Seq<char>, Seq<char>, Seq<char>)> {
    let record = after_last(key, CONTROL);
    if record.len() > 0 && record[0] == 'p' {
        fields_recorded(record.skip(1))
    } else {
        None
    }
}

proof fn lemma_unquoted_ends(s: Seq<char>, from: int, to: int)
    requires
        0 <= from <= to <= s.len(),
        forall|j: int| 0 <= j < from ==> s[j] == '"',
        forall|j: int| to <= j < s.len() ==> s[j] == '"',
        from < to ==> s[from] != '"' && s[to - 1] != '"',
    ensures
        unquoted(s) == s.subrange(from, to),
    decreases s.len(),
{
    if from > 0 {
        assert forall|j: int| 0 <= j < from - 1 implies s.skip(1)[j] == '"' by {
            assert(s.skip(1)[j] == s[j + 1]);
        }
        lemma_unquoted_ends(s.skip(1), from - 1, to - 1);
        assert(s.skip(1).subrange(from - 1, to - 1) =~= s.subrange(from, to));
    } else if to < s.len() {
        if from < to {
            lemma_unquoted_ends(s.drop_last(), from, to);
            assert(s.drop_last().subrange(from, to) =~= s.subrange(from, to));
        } else {
            assert(s[0] == '"');
            assert forall|j: int| 0 <= j < s.skip(1).len() implies s.skip(1)[j] == '"' by {
                assert(s.skip(1)[j] == s[j + 1]);
            }
            lemma_unquoted_ends(s.skip(1), 0, 0);
            assert(s.skip(1).subrange(0, 0) =~= s.subrange(from, to));
        }
    } else {
        assert(s.subrange(from, to) =~= s);
    }
}

/// A text without the quotes around it.
pub fn trim_quotes(s: &str) -> (trimmed: String)
    ensures
        trimmed@ == unquoted(s@),
{
    let chars: Vec<char> = chars_of(s);
    let mut from: usize = 0;
    while from < chars.len() && chars[from] == '"'
        invariant
            from <= chars@.len(),
            forall|j: int| 0 <= j < from ==> chars@[j] == '"',
        decreases chars@.len() - from,
    {
        from += 1;
    }
    let mut to: usize = chars.len();
    while to > from && chars[to - 1] == '"'
        invariant
            from <= to <= chars@.len(),
            forall|j: int| to <= j < chars@.len() ==> chars@[j] == '"',
        decreases to,
    {
        to -= 1;
    }
    proof {
        lemma_unquoted_ends(s@, from as int, to as int);
    }
    text_between(&chars, from, to)
}

/// The name of a part's record: its facts, so that a listing recovers them without reading it.
pub fn mpu_part_key(upload_id: &str, part: MpuPart<'_>) -> (key: String)
    ensures
        key@ == part_record(
            upload_id@,
            part.part_number as int,
            part.retag@,
            part.pmd5@,
            part.stash_nonce@,
        ),
{
    let mut name: String = mpu_prefix(upload_id);
    name.push('p');
    push_padded(&mut name, part.part_number, 5);
    name.push(';');
    name.append(trim_quotes(part.retag).as_str());
    name.push(';');
    name.append(part.pmd5);
    name.push(';');
    name.append(part.stash_nonce);
    assert(name@ =~= part_record(
        upload_id@,
        part.part_number as int,
        part.retag@,
        part.pmd5@,
        part.stash_nonce@,
    ));
    name
}

/// Cuts the characters from `from` on at the first `;`.
fn cut_from(chars: &Vec<char>, from: usize) -> (at: Option<usize>)
    requires
        from <= chars@.len(),
    ensures
        match at {
            Some(i) => from <= i < chars@.len() && cut(chars@.skip(from as int)) == Some(
                (chars@.subrange(from as int, i as int), chars@.skip(i + 1)),
            ),
            None => cut(chars@.skip(from as int)) is None,
        },
{
    let at: usize = find_from(chars, from, ';');
    if at == chars.len() {
        return None;
    }
    assert(chars@.skip(from as int).take(at - from) =~= chars@.subrange(from as int, at as int));
    assert(chars@.skip(from as int).skip(at - from + 1) =~= chars@.skip(at + 1));
    Some(at)
}

/// Reads a part's record; `None` for any other record, and for a malformed one.
pub fn parse_mpu_part(key: &str) -> (part: Option<MpuPart<'_>>)
    ensures
        match part {
            Some(p) => part_recorded(key@) == Some(
                (p.part_number as int, p.retag@, p.pmd5@, p.stash_nonce@),
            ),
            None => part_recorded(key@) is None,
        },
{
    let chars: Vec<char> = chars_of(key);
    let n: usize = chars.len();
    let mut start: usize = n;
    while start > 0 && chars[start - 1] != CONTROL
        invariant
            start <= n == chars@.len(),
            forall|j: int| start <= j < n ==> chars@[j] != CONTROL,
        decreases start,
    {
        start -= 1;
    }
    proof {
        lemma_after_last(key@, CONTROL, start as int);
    }
    if start == n || chars[start] != 'p' {
        return None;
    }
    assert(key@.skip(start as int).skip(1) =~= key@.skip(start + 1));
    let end0: usize = match cut_from(&chars, start + 1) {
        Some(end) => end,
        None => {
            return None;
        },
    };
    let end1: usize = match cut_from(&chars, end0 + 1) {
        Some(end) => end,
        None => {
            return None;
        },
    };
    let end2: usize = match cut_from(&chars, end1 + 1) {
        Some(end) => end,
        None => {
            return None;
        },
    };
    assert(key@.skip(end2 + 1) =~= key@.subrange(end2 + 1, n as int));
    match read_i32(&chars, start + 1, end0) {
        Some(part_number) => {
            if end2 == end1 + 1 {
                return None;
            }
            Some(
                MpuPart {
                    part_number,
                    retag: key.substring_char(end0 + 1, end1),
                    pmd5: key.substring_char(end1 + 1, end2),
                    stash_nonce: key.substring_char(end2 + 1, n),
                },
            )
        },
        None => None,
    }
}

/// The name of the retained ciphertext of a part that admits no successor.
pub fn mpu_stash_key(upload_id: &str, part_number: i32, nonce: &str) -> (key: String)
    ensures
        key@ == upload_range(upload_id@) + (seq!['c'] + padded(part_number as int, 5) + seq![';']
            + nonce@),
{
    let mut name: String = mpu_prefix(upload_id);
    name.push('c');
    push_padded(&mut name, part_number, 5);
    name.push(';');
    name.append(nonce);
    assert(name@ =~= upload_range(upload_id@) + (seq!['c'] + padded(part_number as int, 5) + seq![
        ';',
    ] + nonce@));
    name
}

/// Whether a part, once committed, is the object's last: only the last part may be below the
/// minimum size, and nothing follows the highest part number.
pub fn admits_no_successor(part_number: i32, ct_len: u64, min_remote_part: u64) -> (last: bool)
    ensures
        last == (ct_len < min_remote_part || part_number >= MAX_CLIENT_PART),
{
    ct_len < min_remote_part || part_number >= MAX_CLIENT_PART
}

// ---- recency slices ---------------------------------------------------------------------------

/// The name of a retired recency slice.
pub open spec fn slice_name(seq: u64) -> Seq<char> {
    RECENCY_PREFIX@ + hex_digits(seq as nat, 16)
}

/// The sequence number that a name carries.
pub open spec fn slice_number(key: Seq<char>) -> Option<nat> {
    if RECENCY_PREFIX@.is_prefix_of(key) {
        parsed_unsigned(key.skip(RECENCY_PREFIX@.len() as int), 16, u64::MAX as nat)
    } else {
        None
    }
}

/// The name of a retired recency slice: fixed-width hexadecimal, so that a listing comes in the
/// order in which the slices were retired.
pub fn recency_slice_key(seq: u64) -> (key: String)
    ensures
        key@ == slice_name(seq),
{
    let mut name: String = RECENCY_PREFIX.to_string();
    push_hex(&mut name, seq, 16);
    name
}

/// The sequence number of a recency slice; `None` for another name.
pub fn parse_recency_seq(key: &str) -> (seq: Option<u64>)
    ensures
        match seq {
            Some(n) => slice_number(key@) == Some(n as nat),
            None => slice_number(key@) is None,
        },
{
    let chars: Vec<char> = chars_of(key);
    if !has_prefix(&chars, RECENCY_PREFIX) {
        return None;
    }
    let lead: usize = chars_of(RECENCY_PREFIX).len();
    assert(key@.skip(lead as int) =~= key@.subrange(lead as int, key@.len() as int));
    read_unsigned(&chars, lead, chars.len(), 16, u64::MAX)
}

// ---- shadow bodies ----------------------------------------------------------------------------

/// The name of the plaintext of a composite that was read back: the digest of its key.
pub open spec fn shadow_of(key: Seq<char>) -> Seq<char> {
    tagged('b') + b64url(sha256_of(encode_utf8(key)))
}

pub fn shadow_key(key: &str) -> (name: String)
    ensures
        name@ == shadow_of(key@),
{
    let digest: [u8; 32] = sha256_digest(key.as_bytes());
    let mut name: String = shadow_scan_prefix();
    name.append(b64url_encode(&digest).as_str());
    name
}

/// The client key as a shadow body records it.
pub fn encode_shadow_client_key(key: &str) -> (encoded: String)
    requires
        encode_utf8(key@).len() <= usize::MAX / 4,
    ensures
        encoded@ == b64url(encode_utf8(key@)),
{
    b64url_encode(key.as_bytes())
}

/// The client key that a shadow body records; `None` for what no admissible key is recorded as.
pub fn decode_shadow_client_key(encoded: &str) -> (key: Option<String>)
    ensures
        match key {
            Some(k) => admissible(k@) && encoded@ == b64url(encode_utf8(k@)),
            None => forall|k: Seq<char>|
                admissible(k) ==> encoded@ != #[trigger] b64url(encode_utf8(k)),
        },
{
    let raw: Vec<u8> = match b64url_decode(encoded) {
        Some(raw) => raw,
        None => {
            return None;
        },
    };
    let ghost bytes = raw@;
    proof {
        assert forall|k: Seq<char>| encoded@ == #[trigger] b64url(encode_utf8(k)) implies bytes
            == encode_utf8(k) by {
            crate::codes::b64url_is_injective(bytes, encode_utf8(k));
        }
        assert forall|k: Seq<char>| encoded@ == #[trigger] b64url(
            encode_utf8(k),
        ) implies vstd::utf8::valid_utf8(bytes) by {
            vstd::utf8::encode_utf8_valid_utf8(k);
        }
    }
    match string_from_utf8(raw) {
        Some(key) => {
            proof {
                assert forall|k: Seq<char>| encoded@ == #[trigger] b64url(
                    encode_utf8(k),
                ) implies k == key@ by {
                    vstd::utf8::encode_utf8_decode_utf8(k);
                    vstd::utf8::encode_utf8_decode_utf8(key@);
                }
            }
            match validate_client_key(key.as_str()) {
                Ok(()) => Some(key),
                Err(_) => None,
            }
        },
        None => None,
    }
}

// ---- pending markers --------------------------------------------------------------------------

/// The name of the pending marker of a key: the key itself.
pub fn pending_marker_key(key: &str) -> (marker: &str)
    ensures
        marker@ == key@,
{
    key
}

/// The name behind which a listing holds pending markers alone.
pub open spec fn marker_boundary() -> Seq<char> {
    seq![CONTROL] + largest(256)
}

/// Where a listing of the pending markers starts.
pub fn marker_scan_start_after() -> (boundary: String)
    ensures
        boundary@ == marker_boundary(),
{
    let mut s: String = String::new();
    s.push(CONTROL);
    let mut i: usize = 0;
    assert(s@ =~= seq![CONTROL] + largest(0));
    while i < 256
        invariant
            i <= 256,
            s@ == seq![CONTROL] + largest(i as nat),
        decreases 256 - i,
    {
        s.push('\u{10FFFF}');
        i += 1;
        assert(s@ =~= seq![CONTROL] + largest(i as nat));
    }
    s
}

// ---- laws -------------------------------------------------------------------------------------

/// Whether a text is quotes and nothing else.
pub open spec fn only_quotes(s: Seq<char>) -> bool {
    forall|i: int| 0 <= i < s.len() ==> #[trigger] s[i] == '"'
}

/// What is left without its quotes neither begins nor ends with one, and nothing but quotes was taken
/// from either end.
pub proof fn unquoting_takes_the_quotes_and_nothing_else(s: Seq<char>)
    ensures
        unquoted(s).len() > 0 ==> unquoted(s)[0] != '"' && unquoted(s).last() != '"',
        exists|before: Seq<char>, after: Seq<char>|
            only_quotes(before) && only_quotes(after) && s == #[trigger] (before + unquoted(s)
                + after),
    decreases s.len(),
{
    let bare = unquoted(s);
    if s.len() > 0 && s[0] == '"' {
        unquoting_takes_the_quotes_and_nothing_else(s.skip(1));
        let (b, a) = choose|before: Seq<char>, after: Seq<char>|
            only_quotes(before) && only_quotes(after) && s.skip(1) == #[trigger] (before + bare
                + after);
        let b2 = seq!['"'] + b;
        assert(only_quotes(b2));
        assert(s =~= seq!['"'] + s.skip(1));
        assert(s =~= b2 + bare + a);
    } else if s.len() > 0 && s.last() == '"' {
        unquoting_takes_the_quotes_and_nothing_else(s.drop_last());
        let (b, a) = choose|before: Seq<char>, after: Seq<char>|
            only_quotes(before) && only_quotes(after) && s.drop_last() == #[trigger] (before + bare
                + after);
        let a2 = a.push('"');
        assert(only_quotes(a2));
        assert(s =~= s.drop_last().push('"'));
        assert(s =~= b + bare + a2);
    } else {
        let none = Seq::<char>::empty();
        assert(only_quotes(none));
        assert(s =~= none + bare + none);
    }
}

/// A text in quotes is, without them, the text, and a text that has none at its ends stays as it is.
pub proof fn a_quoted_text_is_read_as_the_text(e: Seq<char>)
    requires
        e.len() > 0 ==> e[0] != '"' && e.last() != '"',
    ensures
        unquoted(e) == e,
        unquoted(seq!['"'] + e + seq!['"']) == e,
{
    let s = seq!['"'] + e + seq!['"'];
    let t = e + seq!['"'];
    assert(s.skip(1) =~= t);
    assert(t.drop_last() =~= e);
    reveal_with_fuel(unquoted, 3);
    if e.len() == 0 {
        assert(t.skip(1) =~= e);
    }
}

/// The gateway's own names start with two control characters and a letter that tells what they are; the
/// records of an upload stand under the upload's own range.
pub proof fn own_names_tell_what_they_are(tag: char, other: char, upload_id: Seq<char>)
    ensures
        tagged(tag).len() == 3,
        tagged(tag)[0] == '\u{1}' && tagged(tag)[1] == '\u{1}' && tagged(tag)[2] == tag,
        tag != other ==> !tagged(tag).is_prefix_of(tagged(other)),
        upload_range(upload_id) == tagged('m') + upload_id + seq!['\u{1}'],
{
    if tag != other {
        assert(tagged(other).subrange(0, 3)[2] == other);
    }
}

/// A field ends at the first semicolon, and what has none is no field.
pub proof fn a_field_ends_at_the_first_semicolon(field: Seq<char>, rest: Seq<char>)
    requires
        !field.contains(';'),
    ensures
        cut(field + seq![';'] + rest) == Some((field, rest)),
        cut(field) is None,
{
    let whole = field + seq![';'] + rest;
    assert forall|j: int| 0 <= j < field.len() implies field[j] != ';' by {
        assert(field.contains(field[j]));
    }
    assert forall|j: int| 0 <= j < field.len() implies whole[j] != ';' by {
        assert(whole[j] == field[j]);
    }
    lemma_first_at(whole, ';', field.len() as int);
    lemma_first_at(field, ';', field.len() as int);
    assert(whole.take(field.len() as int) =~= field);
    assert(whole.skip(field.len() as int + 1) =~= rest);
}

/// A part's record is read field by field: its number, its remote ETag, its digest and its nonce.  One
/// whose number is none, or that has no digest, is no part's.
pub proof fn a_record_is_read_field_by_field(
    number: Seq<char>,
    retag: Seq<char>,
    pmd5: Seq<char>,
    nonce: Seq<char>,
)
    requires
        !number.contains(';'),
        !retag.contains(';'),
        !pmd5.contains(';'),
    ensures
        ({
            let record = number + seq![';'] + (retag + seq![';'] + (pmd5 + seq![';'] + nonce));
            let n = parsed_signed(number, i32::MIN as int, i32::MAX as int);
            &&& n is Some && pmd5.len() > 0 ==> fields_recorded(record) == Some(
                (n->0, retag, pmd5, nonce),
            )
            &&& n is None || pmd5.len() == 0 ==> fields_recorded(record) is None
            &&& fields_recorded(number) is None
            &&& fields_recorded(number + seq![';'] + retag) is None
            &&& fields_recorded(number + seq![';'] + (retag + seq![';'] + pmd5)) is None
        }),
{
    a_field_ends_at_the_first_semicolon(
        number,
        retag + seq![';'] + (pmd5 + seq![';'] + nonce),
    );
    a_field_ends_at_the_first_semicolon(retag, pmd5 + seq![';'] + nonce);
    a_field_ends_at_the_first_semicolon(pmd5, nonce);
    a_field_ends_at_the_first_semicolon(number, retag);
    a_field_ends_at_the_first_semicolon(number, retag + seq![';'] + pmd5);
    a_field_ends_at_the_first_semicolon(retag, pmd5);
}

/// A record is what stands behind the last control character of its name, and it is a part's where it
/// starts with the letter of one.
pub proof fn a_part_is_known_by_its_letter(range: Seq<char>, letter: char, rest: Seq<char>)
    requires
        letter != CONTROL,
        !rest.contains(CONTROL),
    ensures
        letter == 'p' ==> part_recorded(range + seq![CONTROL] + seq![letter] + rest)
            == fields_recorded(rest),
        letter != 'p' ==> part_recorded(range + seq![CONTROL] + seq![letter] + rest) is None,
        part_recorded(range + seq![CONTROL]) is None,
{
    let key = range + seq![CONTROL] + seq![letter] + rest;
    let at = range.len() as int + 1;
    assert forall|j: int| at <= j < key.len() implies key[j] != CONTROL by {
        if j > at {
            assert(key[j] == rest[j - at - 1]);
            assert(rest.contains(rest[j - at - 1]));
        }
    }
    lemma_after_last(key, CONTROL, at);
    assert(key.skip(at) =~= seq![letter] + rest);
    assert((seq![letter] + rest).skip(1) =~= rest);
    let bare = range + seq![CONTROL];
    lemma_after_last(bare, CONTROL, at);
    assert(bare.skip(at) =~= Seq::<char>::empty());
}

/// A record's upload stands between the range's tag and the next control character; a name with no tag,
/// or with nothing behind it, is no upload's.
pub proof fn an_upload_stands_behind_the_tag(id: Seq<char>, name: Seq<char>)
    requires
        !id.contains(CONTROL),
    ensures
        id.len() > 0 ==> upload_of(tagged('m') + id) == Some(id),
        id.len() == 0 ==> upload_of(tagged('m') + id) is None,
        !tagged('m').is_prefix_of(name) ==> upload_of(name) is None,
        upload_of(tagged('m') + seq![CONTROL] + name) is None,
{
    let whole = tagged('m') + id;
    assert(tagged('m').is_prefix_of(whole)) by {
        assert(whole.subrange(0, 3) =~= tagged('m'));
    }
    assert(whole.skip(3) =~= id);
    assert forall|j: int| 0 <= j < id.len() implies id[j] != CONTROL by {
        assert(id.contains(id[j]));
    }
    lemma_first_at(id, CONTROL, id.len() as int);
    assert(id.take(id.len() as int) =~= id);
    let empty = tagged('m') + seq![CONTROL] + name;
    assert(empty.subrange(0, 3) =~= tagged('m'));
    assert(empty.skip(3)[0] == CONTROL);
}

/// A shadow body is named after the digest of its whole key, in the range of shadow bodies.
pub proof fn a_shadow_is_named_after_its_key(key: Seq<char>)
    ensures
        shadow_of(key) == tagged('b') + b64url(sha256_of(encode_utf8(key))),
{
}

/// A slice's number stands behind the prefix of slices, in hexadecimal, and a name with another prefix is
/// no slice's.
pub proof fn only_names_of_slices_have_a_number(name: Seq<char>, digits: Seq<char>)
    ensures
        !"recency/"@.is_prefix_of(name) ==> slice_number(name) is None,
        slice_number("recency/"@ + digits) == parsed_unsigned(digits, 16, u64::MAX as nat),
{
    let whole = "recency/"@ + digits;
    assert(whole.subrange(0, "recency/"@.len() as int) =~= "recency/"@);
    assert(whole.skip("recency/"@.len() as int) =~= digits);
}

} // verus!
