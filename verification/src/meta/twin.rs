//! Facts twins: the listing projection of evicted objects.
//!
//! A twin is an empty object whose name is `0x01 | key | 0x01 | facts`.  The facts are packed into
//! 39 characters of URL-safe base64: length (46 bits), time (42), part count (14) and MD5 (128).

use crate::codes::{
    b64_len, b64url, b64url_characters, b64url_decode, b64url_encode, b64url_is_injective,
    hex_decode, hex_encode, hex_of, hex_round_trips, is_hex, unhex,
};
use crate::digest::{md5_digest, md5_of};
use crate::le::{
    be_bytes, be_bytes_inverts_be_value, be_value, be_value_inverts_be_bytes, lemma_be_bytes_len,
    pow256, read_be, write_be,
};
use crate::meta::keyspace::{first_at, lemma_first_at, CONTROL};
use crate::text::{
    chars_of, decimal, padded_decimal_reads_back, parsed_unsigned, push_decimal, read_unsigned,
    text_between, zeros,
};
use vstd::prelude::*;
use vstd::string::{StrSliceExecFns, StringExecFns};
use vstd::utf8::encode_utf8;

verus! {

/// The width of the packed facts.
pub const FACTS_CHARS: usize = 39;

/// The longest key that has a twin.
pub const TWIN_MAX_KEY_LEN: usize = 983;

pub const PLEN_LIMIT: u64 = 0x4000_0000_0000;

pub const MTIME_LIMIT: u64 = 0x400_0000_0000;

pub const COUNT_LIMIT: u64 = 0x4000;

/// What a listing must show of an evicted object.
#[derive(Clone, Debug, PartialEq, Eq)]
pub struct Facts {
    /// The client-visible ETag.
    pub client_etag: String,
    pub plen: u64,
    /// The original client-write time, in unix milliseconds.
    pub mtime_ms: i64,
}

/// What [`Facts`] hold.
#[verifier::ext_equal]
pub struct FactsView {
    pub client_etag: Seq<char>,
    pub plen: u64,
    pub mtime_ms: i64,
}

impl View for Facts {
    type V = FactsView;

    open spec fn view(&self) -> FactsView {
        FactsView { client_etag: self.client_etag@, plen: self.plen, mtime_ms: self.mtime_ms }
    }
}

// ---- ETags ------------------------------------------------------------------------------------

/// Where the last `-` stands; `-1` where there is none.
pub open spec fn last_dash(s: Seq<char>) -> int
    decreases s.len(),
{
    if s.len() == 0 {
        -1
    } else if s.last() == '-' {
        s.len() - 1
    } else {
        last_dash(s.drop_last())
    }
}

/// The hexadecimal part of an ETag: what stands before the last `-`.
pub open spec fn etag_hex(etag: Seq<char>) -> Seq<char> {
    if last_dash(etag) < 0 {
        etag
    } else {
        etag.take(last_dash(etag))
    }
}

/// The part count of an ETag: zero without a `-`.
pub open spec fn etag_count(etag: Seq<char>) -> Option<nat> {
    if last_dash(etag) < 0 {
        Some(0)
    } else {
        parsed_unsigned(etag.skip(last_dash(etag) + 1), 10, u32::MAX as nat)
    }
}

/// The ETag of an MD5 and a part count: zero parts make a bare one.
pub open spec fn etag_from(md5: Seq<u8>, count: nat) -> Seq<char> {
    if count == 0 {
        hex_of(md5)
    } else {
        hex_of(md5).push('-') + decimal(count)
    }
}

/// The raw MD5 that the hexadecimal part of an ETag stands for.
pub open spec fn etag_md5(etag: Seq<char>) -> Seq<u8> {
    unhex(encode_utf8(etag_hex(etag)))
}

// ---- packing ----------------------------------------------------------------------------------

/// Facts that fit their fields.
pub open spec fn packable(f: FactsView) -> bool {
    &&& etag_count(f.client_etag) matches Some(count) && count < COUNT_LIMIT
    &&& is_hex(encode_utf8(etag_hex(f.client_etag)))
    &&& etag_md5(f.client_etag).len() == 16
    &&& f.plen < PLEN_LIMIT
    &&& 0 <= f.mtime_ms < MTIME_LIMIT
}

/// Length, time and count, in one number.
pub open spec fn head_number(plen: nat, mtime: nat, count: nat) -> nat {
    (plen * MTIME_LIMIT as nat + mtime) * COUNT_LIMIT as nat + count
}

/// The 29 bytes of the packed facts.
pub open spec fn packed_bytes(plen: nat, mtime: nat, count: nat, md5: Seq<u8>) -> Seq<u8> {
    be_bytes(head_number(plen, mtime, count), 13) + md5
}

/// The packed facts.
pub open spec fn packed(f: FactsView) -> Seq<char> {
    b64url(
        packed_bytes(
            f.plen as nat,
            f.mtime_ms as nat,
            etag_count(f.client_etag)->0,
            etag_md5(f.client_etag),
        ),
    )
}

/// Facts in the form in which unpacking gives them.
pub open spec fn canonical(f: FactsView) -> bool {
    packable(f) && f.client_etag == etag_from(
        etag_md5(f.client_etag),
        etag_count(f.client_etag)->0,
    )
}

/// The name of the twin of a key.
pub open spec fn twin_name(key: Seq<char>, f: FactsView) -> Seq<char> {
    seq![CONTROL] + key + seq![CONTROL] + packed(f)
}

proof fn lemma_last_dash(s: Seq<char>, i: int)
    requires
        -1 <= i < s.len(),
        forall|j: int| i < j < s.len() ==> s[j] != '-',
        i >= 0 ==> s[i] == '-',
    ensures
        last_dash(s) == i,
    decreases s.len(),
{
    if i < s.len() - 1 {
        lemma_last_dash(s.drop_last(), i);
    }
}

/// Splits a client ETag into its raw MD5 and part count; `None` where it is malformed.
fn split_etag(etag: &str) -> (split: Option<(Vec<u8>, u64)>)
    ensures
        match split {
            Some((md5, count)) => {
                &&& etag_count(etag@) == Some(count as nat)
                &&& is_hex(encode_utf8(etag_hex(etag@)))
                &&& md5@ == etag_md5(etag@)
            },
            None => etag_count(etag@) is None || !is_hex(encode_utf8(etag_hex(etag@))),
        },
{
    let chars: Vec<char> = chars_of(etag);
    let n: usize = chars.len();
    let mut end: usize = n;
    while end > 0 && chars[end - 1] != '-'
        invariant
            end <= n == chars@.len(),
            forall|j: int| end <= j < n ==> chars@[j] != '-',
        decreases end,
    {
        end -= 1;
    }
    proof {
        lemma_last_dash(etag@, end - 1);
    }
    if end == 0 {
        return match hex_decode(etag) {
            Some(md5) => Some((md5, 0)),
            None => None,
        };
    }
    assert(etag@.skip(end as int) =~= etag@.subrange(end as int, n as int));
    assert(etag@.take(end - 1) =~= etag@.subrange(0, end - 1));
    match read_unsigned(&chars, end, n, 10, u32::MAX as u64) {
        Some(count) => {
            let text: String = text_between(&chars, 0, end - 1);
            match hex_decode(text.as_str()) {
                Some(md5) => Some((md5, count)),
                None => None,
            }
        },
        None => None,
    }
}

impl Facts {
    /// The packed facts; `None` where the ETag is malformed or a field does not fit.
    pub fn pack(&self) -> (field: Option<String>)
        ensures
            match field {
                Some(s) => packable(self@) && s@ == packed(self@),
                None => !packable(self@),
            },
    {
        let (md5, count): (Vec<u8>, u64) = match split_etag(self.client_etag.as_str()) {
            Some(split) => split,
            None => {
                return None;
            },
        };
        if md5.len() != 16 || self.plen >= PLEN_LIMIT || self.mtime_ms < 0 || self.mtime_ms as u64
            >= MTIME_LIMIT || count >= COUNT_LIMIT {
            return None;
        }
        let head: u128 = (self.plen as u128 * MTIME_LIMIT as u128 + self.mtime_ms as u128)
            * COUNT_LIMIT as u128 + count as u128;
        let mut bytes: Vec<u8> = write_be(head, 13);
        bytes.extend_from_slice(&md5);
        proof {
            lemma_be_bytes_len(head as nat, 13);
            assert(bytes@ =~= packed_bytes(
                self.plen as nat,
                self.mtime_ms as nat,
                count as nat,
                md5@,
            ));
        }
        Some(b64url_encode(&bytes))
    }

    /// Reads packed facts; `None` for a text that no facts are packed as.
    pub fn unpack(s: &str) -> (facts: Option<Facts>)
        ensures
            match facts {
                Some(f) => canonical(f@) && s@ == packed(f@),
                None => forall|f: FactsView| canonical(f) ==> s@ != #[trigger] packed(f),
            },
    {
        proof {
            assert forall|f: FactsView| canonical(f) implies #[trigger] packed(f).len() == 39 by {
                lemma_packed_shape(f);
            }
            assert forall|f: FactsView|
                canonical(f) && s@ == #[trigger] packed(f) implies encode_utf8(s@).len() == 39 by {
                lemma_packed_shape(f);
                assert forall|i: int| 0 <= i < s@.len() implies '\0' <= #[trigger] s@[i]
                    <= '\u{7f}' by {
                    b64url_characters(
                        packed_bytes(
                            f.plen as nat,
                            f.mtime_ms as nat,
                            etag_count(f.client_etag)->0,
                            etag_md5(f.client_etag),
                        ),
                        i,
                    );
                }
                assert(vstd::utf8::is_ascii_chars(s@));
                vstd::utf8::is_ascii_chars_encode_utf8(s@);
            }
        }
        if s.as_bytes().len() != FACTS_CHARS {
            return None;
        }
        let raw: Vec<u8> = match b64url_decode(s) {
            Some(raw) => raw,
            None => {
                return None;
            },
        };
        proof {
            assert forall|f: FactsView|
                canonical(f) && s@ == #[trigger] packed(f) implies raw@ == packed_bytes(
                f.plen as nat,
                f.mtime_ms as nat,
                etag_count(f.client_etag)->0,
                etag_md5(f.client_etag),
            ) && raw@.len() == 29 && raw@[0] < 64 by {
                lemma_packed_shape(f);
                b64url_is_injective(
                    raw@,
                    packed_bytes(
                        f.plen as nat,
                        f.mtime_ms as nat,
                        etag_count(f.client_etag)->0,
                        etag_md5(f.client_etag),
                    ),
                );
            }
        }
        if raw.len() != 29 || raw[0] >= 64 {
            return None;
        }
        let head: u128 = read_be(&raw, 13);
        let count: u128 = head % COUNT_LIMIT as u128;
        let rest: u128 = head / COUNT_LIMIT as u128;
        let mtime: u128 = rest % MTIME_LIMIT as u128;
        let plen: u128 = rest / MTIME_LIMIT as u128;
        let md5: &[u8] = &raw[13..29];
        proof {
            lemma_head_bound(raw@.take(13));
        }
        let mut client_etag: String = hex_encode(md5);
        if count != 0 {
            client_etag.push('-');
            push_decimal(&mut client_etag, count as u64);
        }
        let facts = Facts { client_etag, plen: plen as u64, mtime_ms: mtime as i64 };
        proof {
            assert(client_etag@ == etag_from(md5@, count as nat));
            lemma_etag_splits(md5@, count as nat);
            be_bytes_inverts_be_value(raw@.take(13));
            assert(head_number(plen as nat, mtime as nat, count as nat) == head);
            assert(raw@ =~= raw@.take(13) + md5@);
        }
        Some(facts)
    }

    /// The name of the twin of a key; `None` for a key that is too long for one, and for facts that
    /// do not pack.
    pub fn twin_key(&self, base_key: &str) -> (name: Option<String>)
        ensures
            match name {
                Some(n) => encode_utf8(base_key@).len() <= TWIN_MAX_KEY_LEN && packable(self@) && n@
                    == twin_name(base_key@, self@),
                None => encode_utf8(base_key@).len() > TWIN_MAX_KEY_LEN || !packable(self@),
            },
    {
        if base_key.as_bytes().len() > TWIN_MAX_KEY_LEN {
            return None;
        }
        match self.pack() {
            Some(field) => {
                let mut name: String = String::new();
                name.push(CONTROL);
                name.append(base_key);
                name.push(CONTROL);
                name.append(field.as_str());
                assert(name@ =~= twin_name(base_key@, self@));
                Some(name)
            },
            None => None,
        }
    }
}

proof fn lemma_head_bound(b: Seq<u8>)
    requires
        b.len() == 13,
        b[0] < 64,
    ensures
        be_value(b) / COUNT_LIMIT as nat / (MTIME_LIMIT as nat) < PLEN_LIMIT,
{
    reveal_with_fuel(be_value, 14);
}

proof fn lemma_packed_shape(f: FactsView)
    requires
        packable(f),
    ensures
        ({
            let count = etag_count(f.client_etag)->0;
            let md5 = etag_md5(f.client_etag);
            let bytes = packed_bytes(f.plen as nat, f.mtime_ms as nat, count, md5);
            let head = head_number(f.plen as nat, f.mtime_ms as nat, count);
            &&& packed(f).len() == 39
            &&& bytes.len() == 29
            &&& bytes[0] < 64
            &&& bytes.skip(13) == md5
            &&& be_value(bytes.take(13)) == head
            &&& head % COUNT_LIMIT as nat == count
            &&& head / COUNT_LIMIT as nat % MTIME_LIMIT as nat == f.mtime_ms
            &&& head / COUNT_LIMIT as nat / MTIME_LIMIT as nat == f.plen
        }),
{
    let count = etag_count(f.client_etag)->0;
    let md5 = etag_md5(f.client_etag);
    let head = head_number(f.plen as nat, f.mtime_ms as nat, count);
    let bytes = packed_bytes(f.plen as nat, f.mtime_ms as nat, count, md5);
    lemma_be_bytes_len(head, 13);
    reveal_with_fuel(pow256, 14);
    assert(pow256(13) == 0x100_0000_0000_0000_0000_0000_0000int);
    assert(head < 0x40_0000_0000_0000_0000_0000_0000int);
    be_value_inverts_be_bytes(head, 13);
    assert(bytes.take(13) =~= be_bytes(head, 13));
    assert(bytes.skip(13) =~= md5);
    assert(bytes[0] < 64) by {
        let b = be_bytes(head, 13);
        assert(b[0] == bytes[0]);
        lemma_lead_byte(b);
    }
    assert(b64_len(29) == 39);
}

proof fn lemma_lead_byte(b: Seq<u8>)
    requires
        b.len() == 13,
        be_value(b) < 0x40_0000_0000_0000_0000_0000_0000int,
    ensures
        b[0] < 64,
{
    reveal_with_fuel(be_value, 14);
}

/// An ETag made of an MD5 and a part count gives both back.
pub proof fn lemma_etag_splits(md5: Seq<u8>, count: nat)
    requires
        count <= u32::MAX,
    ensures
        etag_count(etag_from(md5, count)) == Some(count),
        etag_hex(etag_from(md5, count)) == hex_of(md5),
        is_hex(encode_utf8(etag_hex(etag_from(md5, count)))),
        etag_md5(etag_from(md5, count)) == md5,
{
    let etag = etag_from(md5, count);
    let h = hex_of(md5);
    hex_round_trips(md5);
    assert forall|j: int| 0 <= j < h.len() implies h[j] != '-' by {}
    if count == 0 {
        lemma_last_dash(etag, -1);
    } else {
        padded_decimal_reads_back(count, 0);
        let d = decimal(count);
        assert(zeros(0) + d =~= d);
        assert forall|j: int| h.len() < j < etag.len() implies etag[j] != '-' by {
            assert(etag[j] == d[j - h.len() - 1]);
        }
        assert(etag[h.len() as int] == '-');
        lemma_last_dash(etag, h.len() as int);
        assert(etag.take(h.len() as int) =~= h);
        assert(etag.skip(h.len() as int + 1) =~= d);
        assert('0' <= d[0] <= '9');
    }
}

/// Splits a name into a key and its facts, if it is that of a twin.
pub fn parse_twin(full_key: &str) -> (twin: Option<(&str, Facts)>)
    ensures
        match twin {
            Some((base, facts)) => {
                &&& base@.len() > 0
                &&& !base@.contains(CONTROL)
                &&& canonical(facts@)
                &&& full_key@ == twin_name(base@, facts@)
            },
            None => forall|base: Seq<char>, f: FactsView|
                base.len() > 0 && !base.contains(CONTROL) && canonical(f) ==> full_key@
                    != #[trigger] twin_name(base, f),
        },
{
    let chars: Vec<char> = chars_of(full_key);
    let n: usize = chars.len();
    let ghost whole = full_key@;
    proof {
        assert forall|base: Seq<char>, f: FactsView|
            base.len() > 0 && !base.contains(CONTROL) && canonical(f) && whole
                == #[trigger] twin_name(base, f) implies {
            &&& whole.len() > base.len() + 1
            &&& whole[0] == CONTROL
            &&& whole[1] != CONTROL
            &&& first_at(whole.skip(1), CONTROL) == base.len()
            &&& whole.subrange(1, base.len() as int + 1) == base
            &&& whole.skip(base.len() as int + 2) == packed(f)
        } by {
            lemma_twin_parts(base, f);
        }
    }
    if n == 0 || chars[0] != CONTROL {
        return None;
    }
    if n == 1 || chars[1] == CONTROL {
        return None;
    }
    let mut sep: usize = 1;
    while sep < n && chars[sep] != CONTROL
        invariant
            1 <= sep <= n == chars@.len(),
            forall|j: int| 1 <= j < sep ==> chars@[j] != CONTROL,
        decreases n - sep,
    {
        sep += 1;
    }
    proof {
        assert forall|j: int| 0 <= j < sep - 1 implies whole.skip(1)[j] != CONTROL by {
            assert(whole.skip(1)[j] == whole[j + 1]);
        }
        lemma_first_at(whole.skip(1), CONTROL, sep - 1);
    }
    if sep == n {
        return None;
    }
    let base: &str = full_key.substring_char(1, sep);
    let field: &str = full_key.substring_char(sep + 1, n);
    assert(field@ =~= whole.skip(sep + 1));
    match Facts::unpack(field) {
        Some(facts) => {
            assert(whole =~= twin_name(base@, facts@));
            Some((base, facts))
        },
        None => None,
    }
}

proof fn lemma_twin_parts(base: Seq<char>, f: FactsView)
    requires
        base.len() > 0,
        !base.contains(CONTROL),
    ensures
        ({
            let whole = twin_name(base, f);
            &&& whole.len() > base.len() + 1
            &&& whole[0] == CONTROL
            &&& whole[1] != CONTROL
            &&& first_at(whole.skip(1), CONTROL) == base.len()
            &&& whole.subrange(1, base.len() as int + 1) == base
            &&& whole.skip(base.len() as int + 2) == packed(f)
        }),
{
    let whole = twin_name(base, f);
    assert(whole[1] == base[0]);
    assert(base.contains(base[0]));
    assert forall|j: int| 0 <= j < base.len() implies whole.skip(1)[j] != CONTROL by {
        assert(whole.skip(1)[j] == base[j]);
        assert(base.contains(base[j]));
    }
    assert(whole.skip(1)[base.len() as int] == CONTROL);
    lemma_first_at(whole.skip(1), CONTROL, base.len() as int);
    assert(whole.subrange(1, base.len() as int + 1) =~= base);
    assert(whole.skip(base.len() as int + 2) =~= packed(f));
}

// ---- composite ETags --------------------------------------------------------------------------

/// All MD5s of a list are hexadecimal.
pub open spec fn all_hex(parts: Seq<String>) -> bool {
    forall|i: int| 0 <= i < parts.len() ==> is_hex(encode_utf8((#[trigger] parts[i])@))
}

/// The bytes of all MD5s of a list, in order.
pub open spec fn joined(parts: Seq<String>) -> Seq<u8>
    decreases parts.len(),
{
    if parts.len() == 0 {
        Seq::empty()
    } else {
        joined(parts.drop_last()) + unhex(encode_utf8(parts.last()@))
    }
}

/// The MD5 of the concatenated MD5s of an object's parts; `None` for no parts, or where one is not
/// hexadecimal.
pub fn composite_md5(part_md5s_hex: &[String]) -> (md5: Option<[u8; 16]>)
    ensures
        match md5 {
            Some(d) => part_md5s_hex@.len() > 0 && all_hex(part_md5s_hex@) && d@ == md5_of(
                joined(part_md5s_hex@),
            ),
            None => part_md5s_hex@.len() == 0 || !all_hex(part_md5s_hex@),
        },
{
    if part_md5s_hex.len() == 0 {
        return None;
    }
    let mut bytes: Vec<u8> = Vec::new();
    let mut i: usize = 0;
    while i < part_md5s_hex.len()
        invariant
            i <= part_md5s_hex@.len(),
            bytes@ == joined(part_md5s_hex@.take(i as int)),
            forall|j: int|
                0 <= j < i ==> is_hex(encode_utf8((#[trigger] part_md5s_hex@[j])@)),
        decreases part_md5s_hex@.len() - i,
    {
        match hex_decode(part_md5s_hex[i].as_str()) {
            Some(raw) => {
                bytes.extend_from_slice(&raw);
            },
            None => {
                return None;
            },
        }
        proof {
            let next = part_md5s_hex@.take(i + 1);
            assert(next.drop_last() =~= part_md5s_hex@.take(i as int));
            assert(next.last() == part_md5s_hex@[i as int]);
            assert(bytes@ =~= joined(next));
        }
        i += 1;
    }
    assert(part_md5s_hex@.take(i as int) =~= part_md5s_hex@);
    Some(md5_digest(&bytes))
}

/// The client ETag of a composite: the hexadecimal form of its MD5, `-`, and the part count.
pub fn composite_etag(part_md5s_hex: &[String]) -> (etag: Option<String>)
    ensures
        match etag {
            Some(e) => part_md5s_hex@.len() > 0 && all_hex(part_md5s_hex@) && e@ == hex_of(
                md5_of(joined(part_md5s_hex@)),
            ).push('-') + decimal(part_md5s_hex@.len()),
            None => part_md5s_hex@.len() == 0 || !all_hex(part_md5s_hex@),
        },
{
    match composite_md5(part_md5s_hex) {
        Some(md5) => {
            let mut etag: String = hex_encode(&md5);
            etag.push('-');
            push_decimal(&mut etag, part_md5s_hex.len() as u64);
            Some(etag)
        },
        None => None,
    }
}

/// An ETag's count stands behind its last dash and its digest in front of it.
pub proof fn an_etag_is_split_at_its_last_dash(digest: Seq<char>, count: Seq<char>)
    requires
        !count.contains('-'),
    ensures
        last_dash(digest + seq!['-'] + count) == digest.len(),
        etag_hex(digest + seq!['-'] + count) == digest,
        etag_count(digest + seq!['-'] + count) == parsed_unsigned(count, 10, u32::MAX as nat),
        etag_hex(count) == count,
        etag_count(count) == Some(0nat),
{
    let whole = digest + seq!['-'] + count;
    assert forall|j: int| 0 <= j < count.len() implies count[j] != '-' by {
        assert(count.contains(count[j]));
    }
    assert forall|j: int| digest.len() < j < whole.len() implies whole[j] != '-' by {
        assert(whole[j] == count[j - digest.len() - 1]);
    }
    lemma_last_dash(whole, digest.len() as int);
    lemma_last_dash(count, -1);
    assert(whole.take(digest.len() as int) =~= digest);
    assert(whole.skip(digest.len() as int + 1) =~= count);
}

/// Facts fit their field exactly where each of them does.
pub proof fn facts_fit_where_each_does(md5: Seq<u8>, count: nat, plen: u64, mtime_ms: i64)
    requires
        count <= u32::MAX,
    ensures
        packable(FactsView { client_etag: etag_from(md5, count), plen, mtime_ms }) <==> md5.len()
            == 16 && count < 0x4000 && plen < 0x4000_0000_0000 && 0 <= mtime_ms < 0x400_0000_0000,
{
    lemma_etag_splits(md5, count);
}

/// The packed field holds the length, the time, the count and the digest, in this order, highest byte
/// first.
pub proof fn the_field_holds_the_facts_in_their_order(f: FactsView, bytes: Seq<u8>)
    requires
        packable(f),
        packed(f) == b64url(bytes),
    ensures
        bytes.len() == 29,
        bytes.skip(13) == etag_md5(f.client_etag),
        be_value(bytes.take(13)) == (f.plen * 0x400_0000_0000 + f.mtime_ms) * 0x4000 + etag_count(
            f.client_etag,
        )->0,
{
    lemma_packed_shape(f);
    b64url_is_injective(
        bytes,
        packed_bytes(
            f.plen as nat,
            f.mtime_ms as nat,
            etag_count(f.client_etag)->0,
            etag_md5(f.client_etag),
        ),
    );
}

/// The digests of the parts are joined one behind the other, in the order of the parts.
pub proof fn digests_are_joined_in_their_order(
    a: Seq<String>,
    b: Seq<String>,
    one: String,
)
    ensures
        joined(a + b) == joined(a) + joined(b),
        joined(Seq::<String>::empty()).len() == 0,
        joined(seq![one]) == unhex(encode_utf8(one@)),
    decreases b.len(),
{
    assert(seq![one].drop_last() =~= Seq::<String>::empty());
    assert(seq![one].last() == one);
    reveal_with_fuel(joined, 2);
    assert(joined(seq![one]) =~= unhex(encode_utf8(one@)));
    if b.len() == 0 {
        assert(a + b =~= a);
        assert(joined(a) + joined(b) =~= joined(a));
    } else {
        digests_are_joined_in_their_order(a, b.drop_last(), one);
        assert((a + b).drop_last() =~= a + b.drop_last());
        assert((a + b).last() == b.last());
        assert(joined(a + b) =~= joined(a) + joined(b));
    }
}

/// What is said of facts is said of each of them.
pub proof fn facts_are_seen_as_they_are(x: Facts)
    ensures
        x@.client_etag == x.client_etag@,
        x@.plen == x.plen,
        x@.mtime_ms == x.mtime_ms,
{
}

/// Facts are canonical exactly where they fit and their ETag is written as an object's own is: its digest
/// in lower case and, where it has a count, a dash and the count with no zero in front.
pub proof fn canonical_facts_are_written_as_an_objects_own(f: FactsView, md5: Seq<u8>, count: nat)
    requires
        count <= u32::MAX,
    ensures
        canonical(f) ==> packable(f),
        f.client_etag == etag_from(md5, count) ==> (canonical(f) <==> packable(f)),
        canonical(f) ==> f.client_etag == etag_from(
            etag_md5(f.client_etag),
            etag_count(f.client_etag)->0,
        ),
        etag_from(md5, 0) == hex_of(md5),
        count > 0 ==> etag_from(md5, count) == hex_of(md5) + seq!['-'] + decimal(count),
{
    lemma_etag_splits(md5, count);
    assert(hex_of(md5).push('-') =~= hex_of(md5) + seq!['-']);
}

/// Every digest of a part has to be readable: one that is not spoils them all.
pub proof fn one_digest_spoils_them_all(a: Seq<String>, b: Seq<String>, one: String)
    ensures
        all_hex(a + b) <==> all_hex(a) && all_hex(b),
        all_hex(seq![one]) <==> is_hex(encode_utf8(one@)),
        all_hex(Seq::empty()),
{
    assert(seq![one][0] == one);
    if all_hex(a + b) {
        assert forall|i: int| 0 <= i < a.len() implies is_hex(encode_utf8((#[trigger] a[i])@)) by {
            assert((a + b)[i] == a[i]);
        }
        assert forall|i: int| 0 <= i < b.len() implies is_hex(encode_utf8((#[trigger] b[i])@)) by {
            assert((a + b)[a.len() + i] == b[i]);
        }
    }
}

} // verus!
