//! Client metadata on cache objects.
//!
//! A client's metadata and the gateway's own facts share one carrier, so the client's names ride
//! under a prefix that no name of the gateway's has, and the values are percent-escaped.  Only
//! controls, the space, `%` and everything outside ASCII expand: the carrier is small and shared.

use crate::codes::{
    escaped, hex_char_upper, hex_digit, percent_decode, percent_encode_byte, string_from_utf8,
    unescaped,
};
use crate::meta::metadata::Metadata;
use crate::text::{chars_of, has_prefix, same_text, text_between};
use vstd::prelude::*;
use vstd::string::StringExecFns;
use vstd::utf8::{
    decode_utf8, encode_utf8, encode_utf8_decode_utf8, encode_utf8_valid_utf8, is_ascii_chars,
    is_ascii_chars_encode_utf8, valid_utf8,
};

verus! {

/// The plaintext length of an evicted object.
pub const PLEN: &'static str = "plen";

/// The client-visible ETag of an evicted object.
pub const CETAG: &'static str = "cetag";

/// The original client-write time of an evicted object.
pub const MTIME: &'static str = "mtime";

/// The echoed storage class.
pub const SCLASS: &'static str = "sc";

/// The client's content type.
pub const CTYPE: &'static str = "ct";

/// The storage class of an object that records none.
pub const STANDARD: &'static str = "STANDARD";

/// The namespace of client metadata.
pub const USER_PREFIX: &'static str = "u-";

/// The bytes that are escaped: controls, the space, `%`, and everything outside ASCII.
pub open spec fn must_escape(b: u8) -> bool {
    b <= 0x20 || b == 0x25 || b >= 0x7f
}

/// What one byte becomes.
pub open spec fn escape_one(b: u8) -> Seq<char> {
    if must_escape(b) {
        escaped(b)
    } else {
        seq![b as char]
    }
}

/// The escaped form of some bytes.
pub open spec fn escape_all(b: Seq<u8>) -> Seq<char>
    decreases b.len(),
{
    if b.len() == 0 {
        Seq::empty()
    } else {
        escape_one(b[0]) + escape_all(b.skip(1))
    }
}

/// A text value as it is stored.
pub open spec fn stored_value(value: Seq<char>) -> Seq<char> {
    escape_all(encode_utf8(value))
}

/// The bytes that a stored value stands for.
pub open spec fn value_bytes(stored: Seq<char>) -> Seq<u8> {
    unescaped(encode_utf8(stored))
}

/// The name under which a client's name is stored.
pub open spec fn user_name(name: Seq<char>) -> Seq<char> {
    USER_PREFIX@ + name
}

/// A client's metadata as it is stored.
pub open spec fn user_encoded(client: Map<Seq<char>, Seq<char>>) -> Map<Seq<char>, Seq<char>> {
    Map::new(
        |n: Seq<char>|
            USER_PREFIX@.is_prefix_of(n) && client.contains_key(n.skip(USER_PREFIX@.len() as int)),
        |n: Seq<char>| stored_value(client[n.skip(USER_PREFIX@.len() as int)]),
    )
}

/// The client metadata that stored metadata holds: what rides under the prefix and is text.
pub open spec fn user_decoded(stored: Map<Seq<char>, Seq<char>>) -> Map<Seq<char>, Seq<char>> {
    Map::new(
        |n: Seq<char>|
            stored.contains_key(user_name(n)) && valid_utf8(value_bytes(stored[user_name(n)])),
        |n: Seq<char>| decode_utf8(value_bytes(stored[user_name(n)])),
    )
}

/// The names that survive when an evicted object comes back: the client's own, the storage class
/// and the content type.
pub open spec fn passes_through(name: Seq<char>) -> bool {
    USER_PREFIX@.is_prefix_of(name) || name == SCLASS@ || name == CTYPE@
}

/// Escapes a text value.
fn escape_value(value: &str) -> (stored: String)
    ensures
        stored@ == stored_value(value@),
{
    let bytes: &[u8] = value.as_bytes();
    let mut out: String = String::new();
    let mut i: usize = 0;
    assert(bytes@.skip(0) =~= bytes@);
    assert(out@ + escape_all(bytes@) =~= escape_all(bytes@));
    while i < bytes.len()
        invariant
            i <= bytes@.len(),
            escape_all(bytes@) == out@ + escape_all(bytes@.skip(i as int)),
        decreases bytes@.len() - i,
    {
        let b: u8 = bytes[i];
        let ghost before = out@;
        if b <= 0x20 || b == 0x25 || b >= 0x7f {
            out.append(percent_encode_byte(b));
        } else {
            out.push(b as char);
        }
        proof {
            assert(out@ =~= before + escape_one(b));
            assert(bytes@.skip(i as int).skip(1) =~= bytes@.skip(i + 1));
            assert(before + (escape_one(b) + escape_all(bytes@.skip(i + 1))) =~= before
                + escape_one(b) + escape_all(bytes@.skip(i + 1)));
        }
        i += 1;
    }
    assert(out@ + escape_all(bytes@.skip(i as int)) =~= out@);
    out
}

/// Reads a stored value; `None` where it is not text.
fn unescape_value(stored: &str) -> (value: Option<String>)
    ensures
        value is Some <==> valid_utf8(value_bytes(stored@)),
        value is Some ==> value->0@ == decode_utf8(value_bytes(stored@)),
{
    string_from_utf8(percent_decode(stored))
}

/// A client's metadata as it is stored.
pub fn encode_user_metadata(client: &Metadata) -> (stored: Metadata)
    requires
        client.wf(),
    ensures
        stored.wf(),
        stored@ == user_encoded(client@),
{
    let ghost list = client.listed();
    let mut stored: Metadata = Metadata::new();
    let n: usize = client.len();
    proof {
        client.lemma_listed();
    }
    let mut i: usize = 0;
    while i < n
        invariant
            i <= n == list.len(),
            list == client.listed(),
            client.wf(),
            stored.wf(),
            forall|name: Seq<char>| #[trigger]
                stored@.contains_key(name) <==> exists|j: int|
                    0 <= j < i && name == user_name(#[trigger] list[j].0@),
            forall|j: int|
                0 <= j < i ==> stored@[user_name(#[trigger] list[j].0@)] == stored_value(list[j].1@),
        decreases n - i,
    {
        let ghost before = stored@;
        let mut name: String = USER_PREFIX.to_string();
        name.append(client.name_at(i).as_str());
        let value: String = escape_value(client.value_at(i).as_str());
        stored.insert(name, value);
        proof {
            client.lemma_listed();
            let fresh = user_name(list[i as int].0@);
            assert forall|other: Seq<char>| #[trigger]
                stored@.contains_key(other) <==> exists|j: int|
                    0 <= j < i + 1 && other == user_name(#[trigger] list[j].0@) by {
                if stored@.contains_key(other) {
                    if other == fresh {
                        assert(other == user_name(list[i as int].0@));
                    } else {
                        assert(before.contains_key(other));
                    }
                }
                if exists|j: int| 0 <= j < i + 1 && other == user_name(#[trigger] list[j].0@) {
                    let j = choose|j: int|
                        0 <= j < i + 1 && other == user_name(#[trigger] list[j].0@);
                    if j < i {
                        assert(before.contains_key(other));
                    }
                }
            }
            assert forall|j: int| 0 <= j < i + 1 implies stored@[user_name(#[trigger] list[j].0@)]
                == stored_value(list[j].1@) by {
                if j < i {
                    lemma_user_name_injective(list[j].0@, list[i as int].0@);
                }
            }
        }
        i += 1;
    }
    proof {
        client.lemma_listed();
        let want = user_encoded(client@);
        assert forall|name: Seq<char>| stored@.contains_key(name) <==> want.contains_key(name) by {
            if stored@.contains_key(name) {
                let j = choose|j: int| 0 <= j < n && name == user_name(#[trigger] list[j].0@);
                lemma_user_name_splits(list[j].0@);
            }
            if want.contains_key(name) {
                let short = name.skip(USER_PREFIX@.len() as int);
                let j = choose|j: int| crate::meta::metadata::names_entry(list, short, j);
                assert(name =~= user_name(short));
                assert(name == user_name(list[j].0@));
            }
        }
        assert forall|name: Seq<char>| stored@.contains_key(name) implies #[trigger] stored@[name]
            == want[name] by {
            let j = choose|j: int| 0 <= j < n && name == user_name(#[trigger] list[j].0@);
            lemma_user_name_splits(list[j].0@);
        }
        assert(stored@ =~= want);
    }
    stored
}

proof fn lemma_user_name_splits(name: Seq<char>)
    ensures
        USER_PREFIX@.is_prefix_of(user_name(name)),
        user_name(name).skip(USER_PREFIX@.len() as int) == name,
{
    let p = USER_PREFIX@;
    assert(user_name(name).subrange(0, p.len() as int) =~= p);
    assert(user_name(name).skip(p.len() as int) =~= name);
}

proof fn lemma_user_name_injective(a: Seq<char>, b: Seq<char>)
    ensures
        user_name(a) == user_name(b) ==> a == b,
{
    lemma_user_name_splits(a);
    lemma_user_name_splits(b);
}

/// The client metadata that stored metadata holds.
pub fn decode_user_metadata(stored: &Metadata) -> (client: Metadata)
    requires
        stored.wf(),
    ensures
        client.wf(),
        client@ == user_decoded(stored@),
{
    let ghost list = stored.listed();
    let mut client: Metadata = Metadata::new();
    let n: usize = stored.len();
    proof {
        stored.lemma_listed();
    }
    let mut i: usize = 0;
    while i < n
        invariant
            i <= n == list.len(),
            list == stored.listed(),
            stored.wf(),
            client.wf(),
            forall|name: Seq<char>| #[trigger]
                client@.contains_key(name) <==> exists|j: int|
                    0 <= j < i && user_name(name) == #[trigger] list[j].0@ && valid_utf8(
                        value_bytes(list[j].1@),
                    ),
            forall|name: Seq<char>, j: int|
                0 <= j < i && user_name(name) == (#[trigger] list[j]).0@
                    && #[trigger] client@.contains_key(name) ==> client@[name] == decode_utf8(
                    value_bytes(list[j].1@),
                ),
        decreases n - i,
    {
        let ghost before = client@;
        let ghost key = list[i as int].0@;
        proof {
            stored.lemma_listed();
        }
        let chars: Vec<char> = chars_of(stored.name_at(i).as_str());
        if has_prefix(&chars, USER_PREFIX) {
            let lead: usize = chars_of(USER_PREFIX).len();
            let name: String = text_between(&chars, lead, chars.len());
            assert(user_name(name@) =~= key);
            match unescape_value(stored.value_at(i).as_str()) {
                Some(value) => {
                    let ghost added = name@;
                    client.insert(name, value);
                    proof {
                        assert forall|other: Seq<char>| #[trigger]
                            client@.contains_key(other) <==> exists|j: int|
                                0 <= j < i + 1 && user_name(other) == #[trigger] list[j].0@
                                    && valid_utf8(value_bytes(list[j].1@)) by {
                            if client@.contains_key(other) {
                                if other == added {
                                    assert(user_name(other) == list[i as int].0@);
                                } else {
                                    assert(before.contains_key(other));
                                }
                            }
                            if exists|j: int|
                                0 <= j < i + 1 && user_name(other) == #[trigger] list[j].0@
                                    && valid_utf8(value_bytes(list[j].1@)) {
                                let j = choose|j: int|
                                    0 <= j < i + 1 && user_name(other) == #[trigger] list[j].0@
                                        && valid_utf8(value_bytes(list[j].1@));
                                if j < i {
                                    assert(before.contains_key(other));
                                } else {
                                    lemma_user_name_injective(other, added);
                                }
                            }
                        }
                        assert forall|other: Seq<char>, j: int|
                            0 <= j < i + 1 && user_name(other) == (#[trigger] list[j]).0@
                                && #[trigger] client@.contains_key(other) implies client@[other]
                            == decode_utf8(value_bytes(list[j].1@)) by {
                            lemma_user_name_injective(other, added);
                            if j < i {
                                assert(list[j].0@ != list[i as int].0@);
                                assert(before.contains_key(other));
                            } else {
                                assert(user_name(added) == list[i as int].0@);
                            }
                        }
                    }
                },
                None => {
                    proof {
                        assert forall|other: Seq<char>, j: int|
                            0 <= j < i + 1 && user_name(other) == (#[trigger] list[j]).0@
                                && #[trigger] client@.contains_key(other) implies client@[other]
                            == decode_utf8(value_bytes(list[j].1@)) by {
                            if j == i {
                                let m = choose|m: int|
                                    0 <= m < i && user_name(other) == #[trigger] list[m].0@
                                        && valid_utf8(value_bytes(list[m].1@));
                                assert(list[m].0@ != list[i as int].0@);
                            }
                        }
                        assert forall|other: Seq<char>| #[trigger]
                            client@.contains_key(other) <==> exists|j: int|
                                0 <= j < i + 1 && user_name(other) == #[trigger] list[j].0@
                                    && valid_utf8(value_bytes(list[j].1@)) by {
                            if exists|j: int|
                                0 <= j < i + 1 && user_name(other) == #[trigger] list[j].0@
                                    && valid_utf8(value_bytes(list[j].1@)) {
                                let j = choose|j: int|
                                    0 <= j < i + 1 && user_name(other) == #[trigger] list[j].0@
                                        && valid_utf8(value_bytes(list[j].1@));
                                assert(j < i);
                            }
                        }
                    }
                },
            }
        } else {
            proof {
                assert forall|other: Seq<char>| user_name(other) != key by {
                    lemma_user_name_splits(other);
                }
                assert forall|other: Seq<char>| #[trigger]
                    client@.contains_key(other) <==> exists|j: int|
                        0 <= j < i + 1 && user_name(other) == #[trigger] list[j].0@ && valid_utf8(
                            value_bytes(list[j].1@),
                        ) by {
                    if exists|j: int|
                        0 <= j < i + 1 && user_name(other) == #[trigger] list[j].0@ && valid_utf8(
                            value_bytes(list[j].1@),
                        ) {
                        let j = choose|j: int|
                            0 <= j < i + 1 && user_name(other) == #[trigger] list[j].0@
                                && valid_utf8(value_bytes(list[j].1@));
                        assert(j < i);
                    }
                }
            }
        }
        i += 1;
    }
    proof {
        stored.lemma_listed();
        let want = user_decoded(stored@);
        assert forall|name: Seq<char>| client@.contains_key(name) <==> want.contains_key(name) by {
            if client@.contains_key(name) {
                let j = choose|j: int|
                    0 <= j < n && user_name(name) == #[trigger] list[j].0@ && valid_utf8(
                        value_bytes(list[j].1@),
                    );
                assert(stored@[list[j].0@] == list[j].1@);
            }
            if want.contains_key(name) {
                let j = choose|j: int|
                    crate::meta::metadata::names_entry(list, user_name(name), j);
                assert(stored@[list[j].0@] == list[j].1@);
            }
        }
        assert forall|name: Seq<char>| client@.contains_key(name) implies #[trigger] client@[name]
            == want[name] by {
            let j = choose|j: int|
                0 <= j < n && user_name(name) == #[trigger] list[j].0@ && valid_utf8(
                    value_bytes(list[j].1@),
                );
            assert(stored@[list[j].0@] == list[j].1@);
        }
        assert(client@ =~= want);
    }
    client
}

/// A content type as it is stored.
pub fn encode_content_type(value: &str) -> (stored: String)
    ensures
        stored@ == stored_value(value@),
{
    escape_value(value)
}

/// The content type that stored metadata records.
pub fn content_type(stored: &Metadata) -> (value: Option<String>)
    requires
        stored.wf(),
    ensures
        value is Some <==> stored@.contains_key(CTYPE@) && valid_utf8(value_bytes(stored@[CTYPE@])),
        value is Some ==> value->0@ == decode_utf8(value_bytes(stored@[CTYPE@])),
{
    match stored.get(CTYPE) {
        Some(raw) => unescape_value(raw.as_str()),
        None => None,
    }
}

/// The part of metadata that survives when an evicted object comes back.
pub fn passthrough_metadata(metadata: &Metadata) -> (kept: Metadata)
    requires
        metadata.wf(),
    ensures
        kept.wf(),
        kept@ == metadata@.restrict(Set::new(|name: Seq<char>| passes_through(name))),
{
    let ghost list = metadata.listed();
    let mut kept: Metadata = Metadata::new();
    let n: usize = metadata.len();
    proof {
        metadata.lemma_listed();
    }
    let mut i: usize = 0;
    while i < n
        invariant
            i <= n == list.len(),
            list == metadata.listed(),
            metadata.wf(),
            kept.wf(),
            forall|name: Seq<char>| #[trigger]
                kept@.contains_key(name) <==> passes_through(name) && exists|j: int|
                    0 <= j < i && name == #[trigger] list[j].0@,
            forall|j: int|
                0 <= j < i && passes_through(#[trigger] list[j].0@) ==> kept@[list[j].0@]
                    == list[j].1@,
        decreases n - i,
    {
        let ghost before = kept@;
        let ghost key = list[i as int].0@;
        proof {
            metadata.lemma_listed();
        }
        let name: &String = metadata.name_at(i);
        let chars: Vec<char> = chars_of(name.as_str());
        if has_prefix(&chars, USER_PREFIX) || same_text(name.as_str(), SCLASS) || same_text(
            name.as_str(),
            CTYPE,
        ) {
            kept.insert(name.clone(), metadata.value_at(i).clone());
        }
        proof {
            assert forall|other: Seq<char>| #[trigger]
                kept@.contains_key(other) <==> passes_through(other) && exists|j: int|
                    0 <= j < i + 1 && other == #[trigger] list[j].0@ by {
                if kept@.contains_key(other) && other != key {
                    assert(before.contains_key(other));
                }
                if kept@.contains_key(other) && other == key {
                    assert(other == list[i as int].0@);
                }
                if passes_through(other) && exists|j: int|
                    0 <= j < i + 1 && other == #[trigger] list[j].0@ {
                    let j = choose|j: int| 0 <= j < i + 1 && other == #[trigger] list[j].0@;
                    if j < i {
                        assert(before.contains_key(other));
                    }
                }
            }
            assert forall|j: int|
                0 <= j < i + 1 && passes_through(#[trigger] list[j].0@) implies kept@[list[j].0@]
                == list[j].1@ by {
                if j < i {
                    assert(list[j].0@ != list[i as int].0@);
                }
            }
        }
        i += 1;
    }
    proof {
        metadata.lemma_listed();
        let want = metadata@.restrict(Set::new(|name: Seq<char>| passes_through(name)));
        assert forall|name: Seq<char>| kept@.contains_key(name) <==> want.contains_key(name) by {
            if want.contains_key(name) {
                let j = choose|j: int| crate::meta::metadata::names_entry(list, name, j);
                assert(name == list[j].0@);
            }
        }
        assert forall|name: Seq<char>| kept@.contains_key(name) implies #[trigger] kept@[name]
            == want[name] by {
            let j = choose|j: int| 0 <= j < n && name == #[trigger] list[j].0@;
            assert(kept@[list[j].0@] == list[j].1@);
        }
        assert(kept@ =~= want);
    }
    kept
}

/// The storage class that metadata records, or the standard one.
pub fn storage_class(metadata: &Metadata) -> (class: String)
    requires
        metadata.wf(),
    ensures
        class@ == (if metadata@.contains_key(SCLASS@) {
            metadata@[SCLASS@]
        } else {
            STANDARD@
        }),
{
    match metadata.get(SCLASS) {
        Some(class) => class.clone(),
        None => STANDARD.to_string(),
    }
}

// ---- laws -------------------------------------------------------------------------------------

/// A stored value is printable ASCII without a space.
pub proof fn stored_values_are_plain(b: Seq<u8>)
    ensures
        forall|i: int| 0 <= i < escape_all(b).len() ==> '!' <= #[trigger] escape_all(b)[i] <= '~',
    decreases b.len(),
{
    if b.len() > 0 {
        stored_values_are_plain(b.skip(1));
        let (head, rest) = (escape_one(b[0]), escape_all(b.skip(1)));
        assert forall|i: int| 0 <= i < escape_all(b).len() implies '!' <= #[trigger] escape_all(
            b,
        )[i] <= '~' by {
            if i < head.len() {
                assert(escape_all(b)[i] == head[i]);
            } else {
                assert(escape_all(b)[i] == rest[i - head.len()]);
            }
        }
    }
}

/// Bytes that need no escape ride through as they are.
pub proof fn plain_values_ride_through(b: Seq<u8>)
    requires
        forall|i: int| 0 <= i < b.len() ==> !must_escape(#[trigger] b[i]),
    ensures
        escape_all(b) == b.map_values(|x: u8| x as char),
    decreases b.len(),
{
    if b.len() > 0 {
        plain_values_ride_through(b.skip(1));
        assert(escape_all(b) =~= b.map_values(|x: u8| x as char));
    } else {
        assert(escape_all(b) =~= b.map_values(|x: u8| x as char));
    }
}

/// The bytes of an escaped form give the bytes back.
pub proof fn escaping_round_trips(b: Seq<u8>)
    ensures
        unescaped(encode_utf8(escape_all(b))) == b,
    decreases b.len(),
{
    let s = escape_all(b);
    stored_values_are_plain(b);
    assert(is_ascii_chars(s));
    is_ascii_chars_encode_utf8(s);
    let u = encode_utf8(s);
    if b.len() > 0 {
        let rest = escape_all(b.skip(1));
        escaping_round_trips(b.skip(1));
        stored_values_are_plain(b.skip(1));
        assert(is_ascii_chars(rest));
        is_ascii_chars_encode_utf8(rest);
        if must_escape(b[0]) {
            assert(u[0] == 37);
            assert(u[1] == hex_char_upper(b[0] as nat / 16) as u8);
            assert(u[2] == hex_char_upper(b[0] as nat % 16) as u8);
            assert(hex_digit(u[1]) == Some(b[0] as nat / 16));
            assert(hex_digit(u[2]) == Some(b[0] as nat % 16));
            assert(u.skip(3) =~= encode_utf8(rest));
        } else {
            assert(u[0] == b[0]);
            assert(u.skip(1) =~= encode_utf8(rest));
        }
        assert(seq![b[0]] + b.skip(1) =~= b);
    } else {
        assert(u.len() == 0);
        assert(unescaped(u) =~= b);
    }
}

/// A text value reads back as it was stored.
pub proof fn stored_value_reads_back(value: Seq<char>)
    ensures
        valid_utf8(value_bytes(stored_value(value))),
        decode_utf8(value_bytes(stored_value(value))) == value,
{
    escaping_round_trips(encode_utf8(value));
    encode_utf8_valid_utf8(value);
    encode_utf8_decode_utf8(value);
}

/// Client metadata survives being stored beside facts of the gateway's own, whatever those are,
/// as long as their names stay outside the client's namespace; and a client's name never takes the
/// place of one of those.
pub proof fn client_metadata_round_trips(
    client: Map<Seq<char>, Seq<char>>,
    own: Map<Seq<char>, Seq<char>>,
)
    requires
        forall|name: Seq<char>| #[trigger]
            own.contains_key(name) ==> !USER_PREFIX@.is_prefix_of(name),
    ensures
        user_decoded(user_encoded(client).union_prefer_right(own)) == client,
        forall|name: Seq<char>| #[trigger]
            own.contains_key(name) ==> !user_encoded(client).contains_key(name),
{
    let stored = user_encoded(client).union_prefer_right(own);
    let back = user_decoded(stored);
    assert forall|name: Seq<char>| back.contains_key(name) <==> client.contains_key(name) by {
        lemma_user_name_splits(name);
        if client.contains_key(name) {
            stored_value_reads_back(client[name]);
        }
    }
    assert forall|name: Seq<char>| back.contains_key(name) implies #[trigger] back[name]
        == client[name] by {
        lemma_user_name_splits(name);
        stored_value_reads_back(client[name]);
    }
    assert(back =~= client);
}

/// An object that comes back answers as it did before its eviction: what passes through has the same
/// client metadata, the same content type and the same storage class as the whole, and every other
/// name is left behind.
pub proof fn what_passes_through_answers_as_before(md: Map<Seq<char>, Seq<char>>)
    ensures
        ({
            let kept = md.restrict(Set::new(|name: Seq<char>| passes_through(name)));
            &&& user_decoded(kept) == user_decoded(md)
            &&& kept.contains_key(CTYPE@) == md.contains_key(CTYPE@)
            &&& md.contains_key(CTYPE@) ==> kept[CTYPE@] == md[CTYPE@]
            &&& kept.contains_key(SCLASS@) == md.contains_key(SCLASS@)
            &&& md.contains_key(SCLASS@) ==> kept[SCLASS@] == md[SCLASS@]
            &&& forall|name: Seq<char>| #[trigger]
                kept.contains_key(name) ==> name == CTYPE@ || name == SCLASS@ || exists|
                    client: Seq<char>,
                |
                    name == #[trigger] user_name(client)
            &&& forall|client: Seq<char>|
                md.contains_key(#[trigger] user_name(client)) ==> kept.contains_key(
                    user_name(client),
                ) && kept[user_name(client)] == md[user_name(client)]
        }),
{
    let kept = md.restrict(Set::new(|name: Seq<char>| passes_through(name)));
    assert forall|client: Seq<char>|
        md.contains_key(#[trigger] user_name(client)) == kept.contains_key(user_name(client)) by {
        lemma_user_name_splits(client);
    }
    assert(user_decoded(kept) =~= user_decoded(md));
    assert forall|name: Seq<char>| #[trigger] kept.contains_key(name) implies name == CTYPE@ || name
        == SCLASS@ || exists|client: Seq<char>| name == #[trigger] user_name(client) by {
        if USER_PREFIX@.is_prefix_of(name) {
            let client = name.skip(USER_PREFIX@.len() as int);
            assert(name =~= user_name(client));
        }
    }
}

/// What passes through an eviction is never a tombstone mark, a length, an ETag or a time.
pub proof fn own_facts_do_not_pass_through()
    ensures
        !passes_through(crate::meta::sentinel::TOMB@),
        !passes_through(PLEN@),
        !passes_through(CETAG@),
        !passes_through(MTIME@),
{
    reveal_strlit("u-");
    reveal_strlit("sc");
    reveal_strlit("ct");
    reveal_strlit("tomb");
    reveal_strlit("plen");
    reveal_strlit("cetag");
    reveal_strlit("mtime");
    assert(USER_PREFIX@[0] == 'u');
}

/// A byte is escaped exactly where it is no printable character, or is the escape character itself.
pub proof fn only_what_is_not_plain_is_escaped(b: u8)
    ensures
        must_escape(b) <==> b < 0x21 || b > 0x7e || b == 0x25,
        b < 0x21 || b > 0x7e || b == 0x25 ==> escape_one(b) == escaped(b),
        0x21 <= b <= 0x7e && b != 0x25 ==> escape_one(b) == seq![b as char],
{
}

/// A client's metadata is stored entry by entry, each under its own name behind the prefix and with its
/// own value, and nothing is stored but that.
pub proof fn each_client_entry_is_stored_under_its_name(
    client: Map<Seq<char>, Seq<char>>,
    name: Seq<char>,
)
    ensures
        user_encoded(client).contains_key("u-"@ + name) == client.contains_key(name),
        client.contains_key(name) ==> user_encoded(client)["u-"@ + name] == escape_all(
            encode_utf8(client[name]),
        ),
        user_encoded(client).contains_key(name) ==> "u-"@.is_prefix_of(name),
{
    lemma_user_name_splits(name);
}

} // verus!
