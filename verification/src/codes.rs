//! Textual encodings of bytes: lower-case hexadecimal, unpadded URL-safe base64, and percent
//! escapes.  The encodings themselves come from the `hex`, `base64-simd` and `percent-encoding`
//! crates; what they produce is stated here.

use vstd::prelude::*;
use vstd::utf8::{decode_utf8, encode_utf8, valid_utf8};

verus! {

// ---- hexadecimal ------------------------------------------------------------------------------

/// The lower-case hexadecimal digit of a number below 16.
pub open spec fn hex_char(d: nat) -> char {
    if d < 10 {
        (48 + d) as char
    } else {
        (87 + d) as char
    }
}

/// The upper-case hexadecimal digit of a number below 16.
pub open spec fn hex_char_upper(d: nat) -> char {
    if d < 10 {
        (48 + d) as char
    } else {
        (55 + d) as char
    }
}

/// Two lower-case hexadecimal digits for each byte.
pub open spec fn hex_of(b: Seq<u8>) -> Seq<char> {
    Seq::new(
        2 * b.len(),
        |i: int|
            hex_char(
                if i % 2 == 0 {
                    b[i / 2] as nat / 16
                } else {
                    b[i / 2] as nat % 16
                },
            ),
    )
}

/// The value of a hexadecimal digit of either case; `None` for any other byte.
pub open spec fn hex_digit(c: u8) -> Option<nat> {
    if 48 <= c <= 57 {
        Some((c - 48) as nat)
    } else if 97 <= c <= 102 {
        Some((c - 87) as nat)
    } else if 65 <= c <= 70 {
        Some((c - 55) as nat)
    } else {
        None
    }
}

/// Whether a byte string is an even number of hexadecimal digits.
pub open spec fn is_hex(s: Seq<u8>) -> bool {
    s.len() % 2 == 0 && forall|i: int| 0 <= i < s.len() ==> #[trigger] hex_digit(s[i]) is Some
}

/// The bytes that a byte string of hexadecimal digits stands for.
pub open spec fn unhex(s: Seq<u8>) -> Seq<u8> {
    Seq::new(
        s.len() / 2,
        |i: int| (hex_digit(s[2 * i])->0 * 16 + hex_digit(s[2 * i + 1])->0) as u8,
    )
}

/// `hex::encode`: two lower-case digits for each byte, high half first.
#[verifier::external_body]
pub(crate) fn hex_encode(bytes: &[u8]) -> (s: String)
    ensures
        s@ == hex_of(bytes@),
{
    hex::encode(bytes)
}

/// `hex::decode`: succeeds on an even number of digits of either case, and gives one byte for each
/// pair, high half first.
#[verifier::external_body]
pub(crate) fn hex_decode(s: &str) -> (bytes: Option<Vec<u8>>)
    ensures
        bytes is Some <==> is_hex(encode_utf8(s@)),
        bytes is Some ==> bytes->0@ == unhex(encode_utf8(s@)),
{
    hex::decode(s).ok()
}

/// Hexadecimal text is ASCII: it is as many bytes as characters.
pub proof fn lemma_hex_is_ascii(b: Seq<u8>)
    ensures
        encode_utf8(hex_of(b)) == Seq::new(hex_of(b).len(), |i: int| hex_of(b)[i] as u8),
{
    assert(vstd::utf8::is_ascii_chars(hex_of(b)));
    vstd::utf8::is_ascii_chars_encode_utf8(hex_of(b));
}

/// Decoding the hexadecimal form of some bytes gives the bytes.
pub proof fn hex_round_trips(b: Seq<u8>)
    ensures
        is_hex(encode_utf8(hex_of(b))),
        unhex(encode_utf8(hex_of(b))) == b,
{
    lemma_hex_is_ascii(b);
    let s = encode_utf8(hex_of(b));
    assert forall|i: int| 0 <= i < s.len() implies #[trigger] hex_digit(s[i]) == Some(
        if i % 2 == 0 {
            b[i / 2] as nat / 16
        } else {
            b[i / 2] as nat % 16
        },
    ) by {}
    assert forall|i: int| 0 <= i < b.len() implies #[trigger] unhex(s)[i] == b[i] by {
        assert(hex_digit(s[2 * i]) == Some(b[i] as nat / 16));
        assert(hex_digit(s[2 * i + 1]) == Some(b[i] as nat % 16));
    }
    assert(unhex(s) =~= b);
}

/// Hexadecimal text has no quote in it.
pub proof fn hex_text_has_no_quotes(b: Seq<u8>)
    ensures
        forall|i: int| 0 <= i < hex_of(b).len() ==> #[trigger] hex_of(b)[i] != '"',
{
}

// ---- base64 -----------------------------------------------------------------------------------

/// The character of the URL-safe base64 alphabet for a number below 64.
pub open spec fn b64_char(v: nat) -> char {
    if v < 26 {
        (65 + v) as char
    } else if v < 52 {
        (71 + v) as char
    } else if v < 62 {
        (v - 4) as char
    } else if v == 62 {
        '-'
    } else {
        '_'
    }
}

/// How many characters the unpadded base64 form of `n` bytes has.
pub open spec fn b64_len(n: nat) -> nat {
    n / 3 * 4 + if n % 3 == 0 {
        0nat
    } else {
        n % 3 + 1
    }
}

/// Byte `i` of `b`, or zero past its end.
pub open spec fn byte_or_zero(b: Seq<u8>, i: int) -> nat {
    if 0 <= i < b.len() {
        b[i] as nat
    } else {
        0
    }
}

/// The `i`th group of six bits of `b`, high bits first, with zero bits behind the last byte.
pub open spec fn b64_sextet(b: Seq<u8>, i: int) -> nat {
    let g = i / 4 * 3;
    if i % 4 == 0 {
        byte_or_zero(b, g) / 4
    } else if i % 4 == 1 {
        byte_or_zero(b, g) % 4 * 16 + byte_or_zero(b, g + 1) / 16
    } else if i % 4 == 2 {
        byte_or_zero(b, g + 1) % 16 * 4 + byte_or_zero(b, g + 2) / 64
    } else {
        byte_or_zero(b, g + 2) % 64
    }
}

/// The unpadded URL-safe base64 form of some bytes.
pub open spec fn b64url(b: Seq<u8>) -> Seq<char> {
    Seq::new(b64_len(b.len()), |i: int| b64_char(b64_sextet(b, i)))
}

/// `URL_SAFE_NO_PAD.encode_to_string` of `base64-simd`: one character for every six bits.
#[verifier::external_body]
pub(crate) fn b64url_encode(bytes: &[u8]) -> (s: String)
    requires
        bytes@.len() <= usize::MAX / 4,
    ensures
        s@ == b64url(bytes@),
{
    base64_simd::URL_SAFE_NO_PAD.encode_to_string(bytes)
}

/// `URL_SAFE_NO_PAD.decode_to_vec` of `base64-simd`: succeeds exactly on the encodings of byte
/// strings (spare bits must be zero), and gives the bytes back.
#[verifier::external_body]
pub(crate) fn b64url_decode(s: &str) -> (bytes: Option<Vec<u8>>)
    ensures
        match bytes {
            Some(b) => s@ == b64url(b@),
            None => forall|b: Seq<u8>| s@ != #[trigger] b64url(b),
        },
{
    base64_simd::URL_SAFE_NO_PAD.decode_to_vec(s).ok()
}

proof fn lemma_b64_char_injective(v: nat, w: nat)
    requires
        v < 64,
        w < 64,
        b64_char(v) == b64_char(w),
    ensures
        v == w,
{
}

proof fn lemma_sextet_range(b: Seq<u8>, i: int)
    requires
        0 <= i,
    ensures
        b64_sextet(b, i) < 64,
{
}

proof fn lemma_b64_len_injective(m: nat, n: nat)
    requires
        b64_len(m) == b64_len(n),
    ensures
        m == n,
{
    let (p, r) = (m / 3, m % 3);
    let (q, t) = (n / 3, n % 3);
    assert(m == 3 * p + r && n == 3 * q + t);
    assert(b64_len(m) / 4 == p);
    assert(b64_len(n) / 4 == q);
}

/// Different byte strings have different base64 forms.
pub proof fn b64url_is_injective(a: Seq<u8>, b: Seq<u8>)
    requires
        b64url(a) == b64url(b),
    ensures
        a == b,
{
    assert(b64url(a).len() == b64_len(a.len()));
    assert(b64url(b).len() == b64_len(b.len()));
    lemma_b64_len_injective(a.len(), b.len());
    assert forall|k: int| 0 <= k < a.len() implies a[k] == b[k] by {
        let i = k / 3 * 4 + k % 3;
        assert forall|j: int| i <= j <= i + 1 && 0 <= j < b64_len(a.len()) implies b64_sextet(a, j)
            == #[trigger] b64_sextet(b, j) by {
            assert(b64url(a)[j] == b64_char(b64_sextet(a, j)));
            assert(b64url(b)[j] == b64_char(b64_sextet(b, j)));
            lemma_sextet_range(a, j);
            lemma_sextet_range(b, j);
            lemma_b64_char_injective(b64_sextet(a, j), b64_sextet(b, j));
        }
        assert(i + 1 < b64_len(a.len()));
        assert(b64_sextet(a, i) == b64_sextet(b, i));
        assert(b64_sextet(a, i + 1) == b64_sextet(b, i + 1));
        assert(i / 4 * 3 == k / 3 * 3);
        assert((i + 1) / 4 * 3 == k / 3 * 3);
    }
    assert(a =~= b);
}

/// Every character of a base64 form is a letter, a digit, `-` or `_`.
pub proof fn b64url_characters(b: Seq<u8>, i: int)
    requires
        0 <= i < b64url(b).len(),
    ensures
        ({
            let c = b64url(b)[i];
            'A' <= c <= 'Z' || 'a' <= c <= 'z' || '0' <= c <= '9' || c == '-' || c == '_'
        }),
{
    lemma_sextet_range(b, i);
}

// ---- percent escapes --------------------------------------------------------------------------

/// A byte as a percent sign and two upper-case hexadecimal digits.
pub open spec fn escaped(b: u8) -> Seq<char> {
    seq!['%', hex_char_upper(b as nat / 16), hex_char_upper(b as nat % 16)]
}

/// The bytes a percent-escaped byte string stands for: a percent sign and two hexadecimal digits
/// are one byte, and everything else, a lone percent sign too, is itself.
pub open spec fn unescaped(s: Seq<u8>) -> Seq<u8>
    decreases s.len(),
{
    if s.len() == 0 {
        Seq::empty()
    } else if s[0] == 37 && s.len() >= 3 && hex_digit(s[1]) is Some && hex_digit(s[2]) is Some {
        seq![(hex_digit(s[1])->0 * 16 + hex_digit(s[2])->0) as u8] + unescaped(s.skip(3))
    } else {
        seq![s[0]] + unescaped(s.skip(1))
    }
}

/// `percent_encoding::percent_encode_byte`: the escape of one byte.
#[verifier::external_body]
pub(crate) fn percent_encode_byte(b: u8) -> (s: &'static str)
    ensures
        s@ == escaped(b),
{
    percent_encoding::percent_encode_byte(b)
}

/// `percent_encoding::percent_decode_str`: the bytes that a percent-escaped string stands for.
#[verifier::external_body]
pub(crate) fn percent_decode(s: &str) -> (bytes: Vec<u8>)
    ensures
        bytes@ == unescaped(encode_utf8(s@)),
{
    percent_encoding::percent_decode_str(s).collect()
}

// ---- UTF-8 ------------------------------------------------------------------------------------

/// `String::from_utf8`: the text that some bytes encode, where they are well-formed UTF-8.
#[verifier::external_body]
pub(crate) fn string_from_utf8(bytes: Vec<u8>) -> (s: Option<String>)
    ensures
        s is Some <==> valid_utf8(bytes@),
        s is Some ==> s->0@ == decode_utf8(bytes@) && encode_utf8(s->0@) == bytes@,
{
    String::from_utf8(bytes).ok()
}

/// The text that `String::from_utf8_lossy` makes of some bytes.
pub uninterp spec fn lossy_text(bytes: Seq<u8>) -> Seq<char>;

/// `String::from_utf8_lossy`: the text that some bytes encode, where they are well-formed UTF-8;
/// where they are not, a text that depends on the bytes alone.
#[verifier::external_body]
pub(crate) fn string_from_utf8_lossy(bytes: &[u8]) -> (s: String)
    ensures
        s@ == lossy_text(bytes@),
        valid_utf8(bytes@) ==> s@ == decode_utf8(bytes@),
{
    String::from_utf8_lossy(bytes).into_owned()
}

} // verus!
