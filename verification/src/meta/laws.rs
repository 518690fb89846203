//! What holds of the gateway's own names as a whole: which read back, how they sort, and that they
//! never collide with client keys.

use crate::codes::{b64_len, b64url, b64url_characters, b64url_is_injective, hex_char};
use crate::digest::sha256_of;
use crate::le::{be_bytes, be_value_inverts_be_bytes, lemma_be_bytes_len, pow256};
use crate::meta::admission::{admissible, unreserved};
use crate::meta::keyspace::{
    cut, lemma_after_last, lemma_first_at, marker_boundary, part_recorded, part_record, shadow_of,
    slice_name, slice_number, tagged, unquoted, upload_of, upload_range, CONTROL, RECENCY_PREFIX,
};
use crate::meta::twin::{
    canonical, etag_count, etag_from, etag_md5, head_number, lemma_etag_splits, packable, packed,
    packed_bytes, twin_name, FactsView, COUNT_LIMIT, MTIME_LIMIT, PLEN_LIMIT, TWIN_MAX_KEY_LEN,
};
use crate::order::{
    bytes_above_bound, common_prefix_keeps_order, encoding_concatenates, key_less, largest,
    largest_comes_last, lemma_encoded_bytes, splits_at,
};
use crate::text::{
    decimal, hex_digits, hex_digits_read_back, padded, padded_decimal_reads_back,
    padded_numbers_compare_by_digits, parsed_signed, pow10, pow16, zeros,
};
use vstd::prelude::*;
use vstd::utf8::{
    encode_utf8, encode_utf8_decode_utf8, is_ascii_chars, is_ascii_chars_encode_utf8,
};

verus! {

proof fn lemma_control_byte()
    ensures
        encode_utf8(seq![CONTROL]) == seq![1u8],
{
    let s = seq![CONTROL];
    assert(is_ascii_chars(s));
    is_ascii_chars_encode_utf8(s);
    assert(encode_utf8(s) =~= seq![1u8]);
}

/// A key is free of reserved bytes exactly if its characters are all above the control character.
pub proof fn unreserved_characters(key: Seq<char>)
    ensures
        unreserved(key) <==> forall|i: int| 0 <= i < key.len() ==> #[trigger] key[i] as u32 > 1,
        unreserved(key) ==> !key.contains(CONTROL),
{
    bytes_above_bound(key, 1);
}

/// No name that begins with the control character is admitted as a client key, and no admitted key
/// begins with it: the test on remote listings is exact.
pub proof fn internal_names_are_never_client_keys(name: Seq<char>)
    requires
        name.len() > 0,
        name[0] == CONTROL,
    ensures
        !admissible(name),
{
    unreserved_characters(name);
    assert(name[0] as u32 <= 1);
}

// ---- twins ------------------------------------------------------------------------------------

/// The packed facts are 39 characters, each a letter, a digit, `-` or `_`.
pub proof fn packed_facts_are_plain(f: FactsView)
    requires
        packable(f),
    ensures
        packed(f).len() == 39,
        forall|i: int|
            0 <= i < packed(f).len() ==> ({
                let c = #[trigger] packed(f)[i];
                'A' <= c <= 'Z' || 'a' <= c <= 'z' || '0' <= c <= '9' || c == '-' || c == '_'
            }),
        is_ascii_chars(packed(f)),
{
    let bytes = packed_bytes(
        f.plen as nat,
        f.mtime_ms as nat,
        etag_count(f.client_etag)->0,
        etag_md5(f.client_etag),
    );
    lemma_be_bytes_len(
        head_number(
            f.plen as nat,
            f.mtime_ms as nat,
            etag_count(f.client_etag)->0,
        ),
        13,
    );
    assert(bytes.len() == 29);
    assert(b64url(bytes).len() == b64_len(29));
    assert forall|i: int| 0 <= i < packed(f).len() implies ({
        let c = #[trigger] packed(f)[i];
        'A' <= c <= 'Z' || 'a' <= c <= 'z' || '0' <= c <= '9' || c == '-' || c == '_'
    }) by {
        b64url_characters(bytes, i);
    }
}

/// The bytes of a twin's name.
proof fn lemma_twin_bytes(key: Seq<char>, f: FactsView)
    requires
        packable(f),
    ensures
        encode_utf8(twin_name(key, f)) == seq![1u8] + encode_utf8(key) + seq![1u8] + encode_utf8(
            packed(f),
        ),
        encode_utf8(packed(f)).len() == 39,
{
    lemma_control_byte();
    packed_facts_are_plain(f);
    is_ascii_chars_encode_utf8(packed(f));
    let c = seq![CONTROL];
    encoding_concatenates(c + key + c, packed(f));
    encoding_concatenates(c + key, c);
    encoding_concatenates(c, key);
}

/// A twin's name is 41 bytes longer than its key, so a key that has a twin leaves it within S3's
/// longest key.
pub proof fn twin_fits_a_key(key: Seq<char>, f: FactsView)
    requires
        packable(f),
        encode_utf8(key).len() <= TWIN_MAX_KEY_LEN,
    ensures
        encode_utf8(twin_name(key, f)).len() == encode_utf8(key).len() + 41,
        encode_utf8(twin_name(key, f)).len() <= 1024,
{
    lemma_twin_bytes(key, f);
}

/// A twin's name identifies its key and its facts.
pub proof fn twin_identifies_key_and_facts(
    a: Seq<char>,
    f: FactsView,
    b: Seq<char>,
    g: FactsView,
)
    requires
        canonical(f),
        canonical(g),
        !a.contains(CONTROL),
        !b.contains(CONTROL),
        twin_name(a, f) == twin_name(b, g),
    ensures
        a == b,
        f == g,
{
    let (x, y) = (twin_name(a, f), twin_name(b, g));
    assert forall|j: int| 0 <= j < a.len() implies x.skip(1)[j] != CONTROL by {
        assert(x.skip(1)[j] == a[j]);
        assert(a.contains(a[j]));
    }
    assert forall|j: int| 0 <= j < b.len() implies y.skip(1)[j] != CONTROL by {
        assert(y.skip(1)[j] == b[j]);
        assert(b.contains(b[j]));
    }
    assert(x.skip(1)[a.len() as int] == CONTROL);
    assert(y.skip(1)[b.len() as int] == CONTROL);
    lemma_first_at(x.skip(1), CONTROL, a.len() as int);
    lemma_first_at(y.skip(1), CONTROL, b.len() as int);
    assert(a =~= x.subrange(1, a.len() as int + 1));
    assert(b =~= y.subrange(1, b.len() as int + 1));
    assert(packed(f) =~= x.skip(a.len() as int + 2));
    assert(packed(g) =~= y.skip(b.len() as int + 2));
    packed_facts_identify(f, g);
}

/// Length, time and count can be told apart in the one number that holds them.
proof fn lemma_head_number(a: nat, b: nat, c: nat, x: nat, y: nat, z: nat)
    requires
        a < PLEN_LIMIT && x < PLEN_LIMIT,
        b < MTIME_LIMIT && y < MTIME_LIMIT,
        c < COUNT_LIMIT && z < COUNT_LIMIT,
    ensures
        head_number(a, b, c) == head_number(x, y, z) ==> a == x && b == y && c == z,
        head_number(a, b, c) < pow256(13),
{
    reveal_with_fuel(pow256, 14);
}

/// The number and the digest can be told apart in the bytes that hold them.
proof fn lemma_packed_bytes(h: nat, s: Seq<u8>, k: nat, t: Seq<u8>)
    requires
        h < pow256(13),
        k < pow256(13),
        be_bytes(h, 13) + s == be_bytes(k, 13) + t,
    ensures
        h == k,
        s == t,
{
    let (p, q) = (be_bytes(h, 13) + s, be_bytes(k, 13) + t);
    lemma_be_bytes_len(h, 13);
    lemma_be_bytes_len(k, 13);
    assert(p.take(13) =~= be_bytes(h, 13));
    assert(q.take(13) =~= be_bytes(k, 13));
    assert(p.skip(13) =~= s);
    assert(q.skip(13) =~= t);
    be_value_inverts_be_bytes(h, 13);
    be_value_inverts_be_bytes(k, 13);
}

/// The packed form identifies canonical facts.
pub proof fn packed_facts_identify(f: FactsView, g: FactsView)
    requires
        canonical(f),
        canonical(g),
        packed(f) == packed(g),
    ensures
        f == g,
{
    let (n, m) = (etag_count(f.client_etag)->0, etag_count(g.client_etag)->0);
    let (s, t) = (etag_md5(f.client_etag), etag_md5(g.client_etag));
    let (a, b) = (f.plen as nat, f.mtime_ms as nat);
    let (x, y) = (g.plen as nat, g.mtime_ms as nat);
    b64url_is_injective(packed_bytes(a, b, n, s), packed_bytes(x, y, m, t));
    lemma_head_number(a, b, n, x, y, m);
    lemma_head_number(x, y, m, a, b, n);
    lemma_packed_bytes(head_number(a, b, n), s, head_number(x, y, m), t);
    assert(f =~= g);
}

/// Facts in the form in which an object's own ETag gives them are canonical.
pub proof fn stamped_facts_are_canonical(md5: Seq<u8>, count: nat, plen: u64, mtime_ms: i64)
    requires
        md5.len() == 16,
        count < COUNT_LIMIT,
        plen < PLEN_LIMIT,
        0 <= mtime_ms < MTIME_LIMIT,
    ensures
        canonical(FactsView { client_etag: etag_from(md5, count), plen, mtime_ms }),
{
    lemma_etag_splits(md5, count);
}

/// Twins sort as their keys do, whatever their facts are: a merge join can pair the two listings.
pub proof fn twins_sort_as_their_keys(a: Seq<char>, f: FactsView, b: Seq<char>, g: FactsView)
    requires
        packable(f),
        packable(g),
        unreserved(b),
        key_less(a, b),
    ensures
        key_less(twin_name(a, f), twin_name(b, g)),
{
    lemma_twin_bytes(a, f);
    lemma_twin_bytes(b, g);
    let (x, y) = (encode_utf8(a), encode_utf8(b));
    let (s, t) = (encode_utf8(twin_name(a, f)), encode_utf8(twin_name(b, g)));
    let i = choose|i: int| splits_at(x, y, i);
    assert(s.take(i + 1) =~= seq![1u8] + x.take(i));
    assert(t.take(i + 1) =~= seq![1u8] + y.take(i));
    assert(t[i + 1] == y[i]);
    if i < x.len() {
        assert(s[i + 1] == x[i]);
    } else {
        assert(s[i + 1] == 1u8);
    }
    assert(splits_at(s, t, i + 1));
}

// ---- the three ranges -------------------------------------------------------------------------

/// The ranges sort apart: a record with the doubled lead comes before every twin, and every twin
/// before every pending marker.
pub proof fn ranges_never_interleave(
    record: Seq<char>,
    key: Seq<char>,
    f: FactsView,
    marker: Seq<char>,
)
    requires
        record.len() >= 2,
        record[0] == CONTROL,
        record[1] == CONTROL,
        packable(f),
        unreserved(key),
        key.len() > 0,
        unreserved(marker),
        marker.len() > 0,
    ensures
        key_less(record, twin_name(key, f)),
        key_less(twin_name(key, f), marker),
{
    lemma_twin_bytes(key, f);
    lemma_control_byte();
    let rest = record.skip(2);
    assert(record =~= seq![CONTROL] + (seq![CONTROL] + rest));
    encoding_concatenates(seq![CONTROL], seq![CONTROL] + rest);
    encoding_concatenates(seq![CONTROL], rest);
    let r = encode_utf8(record);
    let t = encode_utf8(twin_name(key, f));
    let m = encode_utf8(marker);
    lemma_nonempty_bytes(key);
    lemma_nonempty_bytes(marker);
    assert(t[1] == encode_utf8(key)[0]);
    assert(r.take(1) =~= t.take(1));
    assert(splits_at(r, t, 1));
    assert(t.take(0) =~= m.take(0));
    assert(splits_at(t, m, 0));
}

proof fn lemma_nonempty_bytes(s: Seq<char>)
    requires
        s.len() > 0,
    ensures
        encode_utf8(s).len() > 0,
{
    lemma_encoded_bytes(s[0] as u32);
}

/// A listing that starts behind the boundary holds every pending marker, and nothing else of what
/// fits in a key: every internal name of at most 1024 bytes comes before the boundary.
pub proof fn boundary_splits_markers_from_the_rest(name: Seq<char>, marker: Seq<char>)
    requires
        name.len() > 0,
        name[0] == CONTROL,
        encode_utf8(name).len() <= 1024,
        unreserved(marker),
        marker.len() > 0,
    ensures
        key_less(name, marker_boundary()),
        key_less(marker_boundary(), marker),
{
    lemma_control_byte();
    let c = seq![CONTROL];
    let rest = name.skip(1);
    assert(name =~= c + rest);
    encoding_concatenates(c, rest);
    encoding_concatenates(c, largest(256));
    largest_comes_last(rest, 256);
    common_prefix_keeps_order(seq![1u8], encode_utf8(rest), encode_utf8(largest(256)));
    let b = encode_utf8(marker_boundary());
    let m = encode_utf8(marker);
    lemma_nonempty_bytes(marker);
    assert(b.take(0) =~= m.take(0));
    assert(splits_at(b, m, 0));
}

// ---- records ----------------------------------------------------------------------------------

/// A number written with zeros before it reads back.
pub proof fn padded_number_reads_back(n: int)
    requires
        i32::MIN <= n <= i32::MAX,
    ensures
        parsed_signed(padded(n, 5), i32::MIN as int, i32::MAX as int) == Some(n),
        !padded(n, 5).contains(';'),
        !padded(n, 5).contains(CONTROL),
{
    let m = if n >= 0 {
        n as nat
    } else {
        (-n) as nat
    };
    let d = decimal(m);
    let lead = if n >= 0 {
        5 - d.len()
    } else {
        4 - d.len()
    };
    let z: nat = if lead > 0 {
        lead as nat
    } else {
        0
    };
    padded_decimal_reads_back(m, z);
    assert(zeros(lead) =~= zeros(z as int));
    let body = zeros(z as int) + d;
    assert forall|i: int| 0 <= i < body.len() implies '0' <= #[trigger] body[i] <= '9' by {
        if i >= z {
            assert(body[i] == d[i - z]);
        }
    }
    let s = padded(n, 5);
    if n >= 0 {
        assert(s =~= body);
        assert('0' <= s[0] <= '9');
    } else {
        assert(s =~= seq!['-'] + body);
        assert(s.skip(1) =~= body);
    }
    assert forall|i: int| 0 <= i < s.len() implies s[i] == '-' || '0' <= #[trigger] s[i] <= '9' by {
        if n >= 0 {
            assert(s[i] == body[i]);
        } else if i > 0 {
            assert(s[i] == body[i - 1]);
        }
    }
}

proof fn lemma_cut(a: Seq<char>, b: Seq<char>)
    requires
        !a.contains(';'),
    ensures
        cut(a + seq![';'] + b) == Some((a, b)),
{
    let s = a + seq![';'] + b;
    assert forall|j: int| 0 <= j < a.len() implies s[j] != ';' by {
        assert(s[j] == a[j]);
        assert(a.contains(a[j]));
    }
    assert(s[a.len() as int] == ';');
    lemma_first_at(s, ';', a.len() as int);
    assert(s.take(a.len() as int) =~= a);
    assert(s.skip(a.len() as int + 1) =~= b);
}

/// A part's record reads back: the number, the remote ETag without quotes, the MD5 and the nonce.
pub proof fn part_record_reads_back(
    upload_id: Seq<char>,
    n: int,
    retag: Seq<char>,
    pmd5: Seq<char>,
    nonce: Seq<char>,
)
    requires
        i32::MIN <= n <= i32::MAX,
        !unquoted(retag).contains(';'),
        !unquoted(retag).contains(CONTROL),
        !pmd5.contains(';'),
        !pmd5.contains(CONTROL),
        !nonce.contains(CONTROL),
        pmd5.len() > 0,
    ensures
        part_recorded(part_record(upload_id, n, retag, pmd5, nonce)) == Some(
            (n, unquoted(retag), pmd5, nonce),
        ),
{
    padded_number_reads_back(n);
    let key = part_record(upload_id, n, retag, pmd5, nonce);
    let range = upload_range(upload_id);
    let (d, r) = (padded(n, 5), unquoted(retag));
    let record = seq!['p'] + d + seq![';'] + r + seq![';'] + pmd5 + seq![';'] + nonce;
    assert(key =~= range + record);
    assert forall|j: int| range.len() <= j < key.len() implies key[j] != CONTROL by {
        let c = record[j - range.len()];
        assert(key[j] == c);
        let i = j - range.len();
        if 1 <= i < 1 + d.len() {
            assert(c == d[i - 1]);
            assert(d.contains(d[i - 1]));
        } else if 2 + d.len() <= i < 2 + d.len() + r.len() {
            assert(c == r[i - 2 - d.len()]);
            assert(r.contains(r[i - 2 - d.len()]));
        } else if 3 + d.len() + r.len() <= i < 3 + d.len() + r.len() + pmd5.len() {
            assert(c == pmd5[i - 3 - d.len() - r.len()]);
            assert(pmd5.contains(pmd5[i - 3 - d.len() - r.len()]));
        } else if 4 + d.len() + r.len() + pmd5.len() <= i {
            assert(c == nonce[i - 4 - d.len() - r.len() - pmd5.len()]);
            assert(nonce.contains(nonce[i - 4 - d.len() - r.len() - pmd5.len()]));
        }
    }
    assert(key[range.len() - 1] == CONTROL);
    lemma_after_last(key, CONTROL, range.len() as int);
    assert(key.skip(range.len() as int) =~= record);
    let s2 = pmd5 + seq![';'] + nonce;
    let s1 = r + seq![';'] + s2;
    assert(record.skip(1) =~= d + seq![';'] + s1);
    lemma_cut(d, s1);
    lemma_cut(r, s2);
    lemma_cut(pmd5, nonce);
}

/// An upload's own record, its fold record and its retained ciphertext are not part records.
pub proof fn other_records_are_not_parts(upload_id: Seq<char>, tag: char, rest: Seq<char>)
    requires
        tag != 'p',
        tag != CONTROL,
        !rest.contains(CONTROL),
    ensures
        part_recorded(upload_range(upload_id) + (seq![tag] + rest)) is None,
{
    let range = upload_range(upload_id);
    let record = seq![tag] + rest;
    let key = range + record;
    assert forall|j: int| range.len() <= j < key.len() implies key[j] != CONTROL by {
        if j > range.len() {
            assert(key[j] == rest[j - range.len() - 1]);
            assert(rest.contains(rest[j - range.len() - 1]));
        }
    }
    assert(key[range.len() - 1] == CONTROL);
    lemma_after_last(key, CONTROL, range.len() as int);
    assert(key.skip(range.len() as int) =~= record);
}

/// Every record of an upload names the upload.
pub proof fn records_name_their_upload(upload_id: Seq<char>, rest: Seq<char>)
    requires
        upload_id.len() > 0,
        !upload_id.contains(CONTROL),
    ensures
        upload_of(upload_range(upload_id) + rest) == Some(upload_id),
{
    let key = upload_range(upload_id) + rest;
    assert(key.subrange(0, 3) =~= tagged('m'));
    let s = key.skip(3);
    assert forall|j: int| 0 <= j < upload_id.len() implies s[j] != CONTROL by {
        assert(s[j] == upload_id[j]);
        assert(upload_id.contains(upload_id[j]));
    }
    assert(s[upload_id.len() as int] == CONTROL);
    lemma_first_at(s, CONTROL, upload_id.len() as int);
    assert(s.take(upload_id.len() as int) =~= upload_id);
}

/// A recency slice's name reads back as its number.
pub proof fn slice_name_reads_back(seq: u64)
    ensures
        slice_number(slice_name(seq)) == Some(seq as nat),
{
    reveal_with_fuel(pow16, 17);
    hex_digits_read_back(seq as nat, 16);
    let d = hex_digits(seq as nat, 16);
    let key = slice_name(seq);
    let p = RECENCY_PREFIX@;
    assert(key.subrange(0, p.len() as int) =~= p);
    assert(key.skip(p.len() as int) =~= d);
    assert(d[0] != '+');
}

/// Recency slices sort in the order of their numbers.
pub proof fn slices_sort_by_number(m: u64, n: u64)
    requires
        m < n,
    ensures
        key_less(slice_name(m), slice_name(n)),
{
    reveal_with_fuel(pow16, 17);
    lemma_hex_order(m as nat, n as nat, 16);
    let p = RECENCY_PREFIX@;
    encoding_concatenates(p, hex_digits(m as nat, 16));
    encoding_concatenates(p, hex_digits(n as nat, 16));
    common_prefix_keeps_order(
        encode_utf8(p),
        encode_utf8(hex_digits(m as nat, 16)),
        encode_utf8(hex_digits(n as nat, 16)),
    );
}

/// The records of an upload's parts sort in the order of the part numbers, whatever else they hold,
/// as long as the numbers have at most five digits.
pub proof fn part_records_sort_by_number(
    upload_id: Seq<char>,
    m: int,
    n: int,
    retag: Seq<char>,
    pmd5: Seq<char>,
    nonce: Seq<char>,
    other_retag: Seq<char>,
    other_pmd5: Seq<char>,
    other_nonce: Seq<char>,
)
    requires
        0 <= m < n <= 99_999,
    ensures
        key_less(
            part_record(upload_id, m, retag, pmd5, nonce),
            part_record(upload_id, n, other_retag, other_pmd5, other_nonce),
        ),
{
    reveal_with_fuel(pow10, 6);
    let at = padded_numbers_compare_by_digits(m as nat, n as nat, 5);
    let (a, b) = (padded(m, 5), padded(n, 5));
    lemma_padded_ascii(m as nat);
    lemma_padded_ascii(n as nat);
    is_ascii_chars_encode_utf8(a);
    is_ascii_chars_encode_utf8(b);
    let front = upload_range(upload_id) + seq!['p'];
    let r = seq![';'] + unquoted(retag) + seq![';'] + pmd5 + seq![';'] + nonce;
    let s = seq![';'] + unquoted(other_retag) + seq![';'] + other_pmd5 + seq![';'] + other_nonce;
    assert(part_record(upload_id, m, retag, pmd5, nonce) =~= front + (a + r));
    assert(part_record(upload_id, n, other_retag, other_pmd5, other_nonce) =~= front + (b + s));
    encoding_concatenates(front, a + r);
    encoding_concatenates(front, b + s);
    encoding_concatenates(a, r);
    encoding_concatenates(b, s);
    let (x, y) = (encode_utf8(a + r), encode_utf8(b + s));
    assert forall|i: int| 0 <= i < at implies x[i] == y[i] by {
        assert(a.take(at)[i] == b.take(at)[i]);
    }
    assert(x.take(at) =~= y.take(at));
    assert(splits_at(x, y, at));
    common_prefix_keeps_order(encode_utf8(front), x, y);
}

proof fn lemma_padded_ascii(n: nat)
    ensures
        is_ascii_chars(padded(n as int, 5)),
{
    padded_decimal_reads_back(n, 0);
}

proof fn lemma_hex_ascii(n: nat, w: nat)
    ensures
        hex_digits(n, w).len() == w,
        is_ascii_chars(hex_digits(n, w)),
    decreases w,
{
    if w > 0 {
        lemma_hex_ascii(n / 16, (w - 1) as nat);
    }
}

proof fn lemma_hex_order(m: nat, n: nat, w: nat)
    requires
        m < n < pow16(w),
    ensures
        key_less(hex_digits(m, w), hex_digits(n, w)),
    decreases w,
{
    lemma_hex_ascii(m, w);
    lemma_hex_ascii(n, w);
    is_ascii_chars_encode_utf8(hex_digits(m, w));
    is_ascii_chars_encode_utf8(hex_digits(n, w));
    let (x, y) = (encode_utf8(hex_digits(m, w)), encode_utf8(hex_digits(n, w)));
    let (p, q) = (hex_digits(m / 16, (w - 1) as nat), hex_digits(n / 16, (w - 1) as nat));
    lemma_hex_ascii(m / 16, (w - 1) as nat);
    lemma_hex_ascii(n / 16, (w - 1) as nat);
    is_ascii_chars_encode_utf8(p);
    is_ascii_chars_encode_utf8(q);
    let (a, b) = (encode_utf8(p), encode_utf8(q));
    assert forall|i: int| 0 <= i < w - 1 implies x[i] == a[i] && y[i] == b[i] by {
        assert(hex_digits(m, w)[i] == p[i]);
        assert(hex_digits(n, w)[i] == q[i]);
    }
    if m / 16 < n / 16 {
        lemma_hex_order(m / 16, n / 16, (w - 1) as nat);
        let i = choose|i: int| splits_at(a, b, i);
        assert(x.take(i) =~= a.take(i));
        assert(y.take(i) =~= b.take(i));
        assert(splits_at(x, y, i));
    } else {
        assert(m / 16 == n / 16);
        assert(x.take(w - 1) =~= y.take(w - 1));
        assert(x[w - 1] == hex_char(m % 16) as u8);
        assert(y[w - 1] == hex_char(n % 16) as u8);
        assert(splits_at(x, y, w - 1));
    }
}

/// A shadow body's name is within the shadow range, and is never a client key.
pub proof fn shadow_names_stay_in_their_range(key: Seq<char>)
    ensures
        tagged('b').is_prefix_of(shadow_of(key)),
        !admissible(shadow_of(key)),
{
    let name = shadow_of(key);
    assert(name.subrange(0, 3) =~= tagged('b'));
    internal_names_are_never_client_keys(name);
}

/// The shadow bodies of two keys have the same name only if the keys' SHA-256 digests agree.
pub proof fn shadow_names_carry_the_whole_digest(a: Seq<char>, b: Seq<char>)
    requires
        shadow_of(a) == shadow_of(b),
    ensures
        sha256_of(encode_utf8(a)) == sha256_of(encode_utf8(b)),
{
    let (x, y) = (b64url(sha256_of(encode_utf8(a))), b64url(sha256_of(encode_utf8(b))));
    assert(shadow_of(a).skip(3) =~= x);
    assert(shadow_of(b).skip(3) =~= y);
    b64url_is_injective(sha256_of(encode_utf8(a)), sha256_of(encode_utf8(b)));
}

/// The key that a shadow body records reads back: two keys are recorded alike only if they are the
/// same.
pub proof fn shadow_records_name_one_key(a: Seq<char>, b: Seq<char>)
    requires
        b64url(encode_utf8(a)) == b64url(encode_utf8(b)),
    ensures
        a == b,
{
    b64url_is_injective(encode_utf8(a), encode_utf8(b));
    encode_utf8_decode_utf8(a);
    encode_utf8_decode_utf8(b);
}

} // verus!
