//! The order in which a bucket lists its keys: by the bytes of their UTF-8 encoding.

use vstd::prelude::*;
use vstd::utf8::{
    encode_scalar, encode_utf8, encode_utf8_decode_utf8, has_width_1_encoding, has_width_2_encoding, has_width_3_encoding,
    last_continuation_byte, leading_byte_width_1, leading_byte_width_2, leading_byte_width_3,
    leading_byte_width_4, second_last_continuation_byte, third_last_continuation_byte,
};

verus! {

/// Two byte strings agree before `i`, and there the first ends or holds the smaller byte.
pub open spec fn splits_at(a: Seq<u8>, b: Seq<u8>, i: int) -> bool {
    &&& 0 <= i <= a.len()
    &&& i < b.len()
    &&& a.take(i) == b.take(i)
    &&& i < a.len() ==> a[i] < b[i]
}

/// Byte order: the first byte that differs decides, and a beginning comes before its continuations.
pub open spec fn bytes_less(a: Seq<u8>, b: Seq<u8>) -> bool {
    exists|i: int| splits_at(a, b, i)
}

/// Listing order of keys.
pub open spec fn key_less(a: Seq<char>, b: Seq<char>) -> bool {
    bytes_less(encode_utf8(a), encode_utf8(b))
}

/// How one key stands to another in listing order.
#[derive(Clone, Copy, Debug, PartialEq, Eq, Structural)]
pub enum KeyOrder {
    Before,
    Same,
    After,
}

/// Tells two keys apart by listing order.
pub fn order_of(a: &str, b: &str) -> (order: KeyOrder)
    ensures
        match order {
            KeyOrder::Before => key_less(a@, b@),
            KeyOrder::Same => a@ == b@,
            KeyOrder::After => key_less(b@, a@),
        },
{
    let x: &[u8] = a.as_bytes();
    let y: &[u8] = b.as_bytes();
    let (m, n): (usize, usize) = (x.len(), y.len());
    let mut i: usize = 0;
    while i < m && i < n
        invariant
            i <= m,
            i <= n,
            m == x@.len(),
            n == y@.len(),
            x@ == encode_utf8(a@),
            y@ == encode_utf8(b@),
            x@.take(i as int) == y@.take(i as int),
        decreases m - i,
    {
        if x[i] < y[i] {
            assert(splits_at(x@, y@, i as int));
            return KeyOrder::Before;
        }
        if y[i] < x[i] {
            assert(splits_at(y@, x@, i as int));
            return KeyOrder::After;
        }
        proof {
            assert(x@.take(i + 1) =~= x@.take(i as int).push(x@[i as int]));
            assert(y@.take(i + 1) =~= y@.take(i as int).push(y@[i as int]));
        }
        i += 1;
    }
    if m < n {
        assert(splits_at(x@, y@, i as int));
        KeyOrder::Before
    } else if n < m {
        assert(splits_at(y@, x@, i as int));
        KeyOrder::After
    } else {
        proof {
            assert(x@ =~= x@.take(i as int));
            assert(y@ =~= y@.take(i as int));
            encode_utf8_decode_utf8(a@);
            encode_utf8_decode_utf8(b@);
        }
        KeyOrder::Same
    }
}

/// The encoding of a concatenation is the concatenation of the encodings.
pub proof fn encoding_concatenates(a: Seq<char>, b: Seq<char>)
    ensures
        encode_utf8(a + b) == encode_utf8(a) + encode_utf8(b),
    decreases a.len(),
{
    if a.len() == 0 {
        assert(a + b =~= b);
        assert(encode_utf8(a) + encode_utf8(b) =~= encode_utf8(b));
    } else {
        encoding_concatenates(a.drop_first(), b);
        assert((a + b).drop_first() =~= a.drop_first() + b);
        let head = encode_scalar(a[0] as u32);
        assert(head + (encode_utf8(a.drop_first()) + encode_utf8(b)) =~= head + encode_utf8(
            a.drop_first(),
        ) + encode_utf8(b));
    }
}

/// A common beginning does not change the order.
pub proof fn common_prefix_keeps_order(p: Seq<u8>, a: Seq<u8>, b: Seq<u8>)
    requires
        bytes_less(a, b),
    ensures
        bytes_less(p + a, p + b),
{
    let i = choose|i: int| splits_at(a, b, i);
    let j = p.len() + i;
    assert((p + a).take(j) =~= p + a.take(i));
    assert((p + b).take(j) =~= p + b.take(i));
    assert(splits_at(p + a, p + b, j));
}

/// No key comes before itself, and of two keys at most one comes before the other.
pub proof fn order_is_strict(a: Seq<u8>, b: Seq<u8>)
    requires
        bytes_less(a, b),
    ensures
        a != b,
        !bytes_less(b, a),
{
    let i = choose|i: int| splits_at(a, b, i);
    if bytes_less(b, a) {
        let j = choose|j: int| splits_at(b, a, j);
        if i < j {
            assert(b.take(j)[i] == a.take(j)[i]);
        } else if j < i {
            assert(a.take(i)[j] == b.take(i)[j]);
        }
    }
}

/// Order is transitive.
pub proof fn order_is_transitive(a: Seq<u8>, b: Seq<u8>, c: Seq<u8>)
    requires
        bytes_less(a, b),
        bytes_less(b, c),
    ensures
        bytes_less(a, c),
{
    let i = choose|i: int| splits_at(a, b, i);
    let j = choose|j: int| splits_at(b, c, j);
    let k = if i < j {
        i
    } else {
        j
    };
    assert(a.take(k) =~= a.take(i).take(k));
    assert(b.take(i).take(k) =~= b.take(k));
    assert(b.take(k) =~= b.take(j).take(k));
    assert(c.take(j).take(k) =~= c.take(k));
    if i < j {
        assert(b.take(j)[i] == c.take(j)[i]);
    } else if j < i {
        assert(a.take(i)[j] == b.take(i)[j]);
    }
    assert(splits_at(a, c, k));
}

/// Of two different byte strings one comes before the other.
pub proof fn order_is_total(a: Seq<u8>, b: Seq<u8>)
    requires
        a != b,
    ensures
        bytes_less(a, b) || bytes_less(b, a),
    decreases a.len(),
{
    if a.len() == 0 {
        assert(b.len() > 0) by {
            if b.len() == 0 {
                assert(a =~= b);
            }
        }
        assert(a.take(0) =~= b.take(0));
        assert(splits_at(a, b, 0));
    } else if b.len() == 0 {
        assert(a.take(0) =~= b.take(0));
        assert(splits_at(b, a, 0));
    } else if a[0] != b[0] {
        assert(a.take(0) =~= b.take(0));
        if a[0] < b[0] {
            assert(splits_at(a, b, 0));
        } else {
            assert(splits_at(b, a, 0));
        }
    } else {
        let (x, y) = (a.skip(1), b.skip(1));
        let p = seq![a[0]];
        assert(p + x =~= a);
        assert(p + y =~= b);
        order_is_total(x, y);
        if bytes_less(x, y) {
            common_prefix_keeps_order(p, x, y);
        } else {
            common_prefix_keeps_order(p, y, x);
        }
    }
}

/// The encoding of a character: one byte, its code, for ASCII; else bytes of at least `0x80`.
pub proof fn lemma_encoded_bytes(c: u32)
    ensures
        c <= 0x7f ==> encode_scalar(c) == seq![c as u8],
        c > 0x7f ==> forall|j: int|
            0 <= j < encode_scalar(c).len() ==> #[trigger] encode_scalar(c)[j] >= 0x80,
        1 <= encode_scalar(c).len() <= 4,
{
    assert(c <= 0x7f ==> leading_byte_width_1(c) == c as u8) by (bit_vector);
    assert(leading_byte_width_2(c) >= 0x80 && leading_byte_width_3(c) >= 0x80
        && leading_byte_width_4(c) >= 0x80 && last_continuation_byte(c) >= 0x80
        && second_last_continuation_byte(c) >= 0x80 && third_last_continuation_byte(c) >= 0x80)
        by (bit_vector);
}

/// The bytes of a text are all above a bound below `0x80` exactly if its characters are.
pub proof fn bytes_above_bound(s: Seq<char>, bound: u8)
    requires
        bound < 0x80,
    ensures
        (forall|i: int| 0 <= i < encode_utf8(s).len() ==> #[trigger] encode_utf8(s)[i] > bound)
            <==> (forall|i: int| 0 <= i < s.len() ==> #[trigger] s[i] as u32 > bound),
    decreases s.len(),
{
    if s.len() > 0 {
        let (head, rest) = (encode_scalar(s[0] as u32), encode_utf8(s.drop_first()));
        bytes_above_bound(s.drop_first(), bound);
        lemma_encoded_bytes(s[0] as u32);
        assert(encode_utf8(s) == head + rest);
        if forall|i: int| 0 <= i < encode_utf8(s).len() ==> #[trigger] encode_utf8(s)[i] > bound {
            assert(encode_utf8(s)[0] == head[0]);
            assert forall|i: int| 0 <= i < rest.len() implies #[trigger] rest[i] > bound by {
                assert(encode_utf8(s)[head.len() + i] == rest[i]);
            }
            assert forall|i: int| 0 <= i < s.len() implies #[trigger] s[i] as u32 > bound by {
                if i > 0 {
                    assert(s.drop_first()[i - 1] == s[i]);
                }
            }
        }
        if forall|i: int| 0 <= i < s.len() ==> #[trigger] s[i] as u32 > bound {
            assert forall|i: int| 0 <= i < s.drop_first().len() implies #[trigger] s.drop_first()[i]
                as u32 > bound by {
                assert(s.drop_first()[i] == s[i + 1]);
            }
            assert forall|i: int| 0 <= i < encode_utf8(s).len() implies #[trigger] encode_utf8(s)[i]
                > bound by {
                if i < head.len() {
                    assert(encode_utf8(s)[i] == head[i]);
                } else {
                    assert(encode_utf8(s)[i] == rest[i - head.len()]);
                }
            }
        }
    }
}

// ---- the largest text -------------------------------------------------------------------------

/// `n` times the largest character.
pub open spec fn largest(n: nat) -> Seq<char> {
    Seq::new(n, |i: int| '\u{10FFFF}')
}

proof fn lemma_largest_character()
    ensures
        encode_scalar(0x10FFFF) == seq![0xF4u8, 0x8Fu8, 0xBFu8, 0xBFu8],
{
    let c: u32 = 0x10FFFF;
    assert(leading_byte_width_4(c) == 0xF4u8 && third_last_continuation_byte(c) == 0x8Fu8
        && second_last_continuation_byte(c) == 0xBFu8 && last_continuation_byte(c) == 0xBFu8)
        by (bit_vector)
        requires
            c == 0x10FFFF,
    ;
}

/// Every other character is encoded to smaller bytes, and no encoding begins another.
proof fn lemma_smaller_character(c: u32)
    requires
        c < 0x10FFFF,
    ensures
        exists|i: int| i < encode_scalar(c).len() && splits_at(encode_scalar(c), encode_scalar(0x10FFFF), i),
{
    lemma_largest_character();
    let x = encode_scalar(c);
    let y = encode_scalar(0x10FFFF);
    lemma_encoded_bytes(c);
    assert(x.take(0) =~= y.take(0));
    if has_width_1_encoding(c) || has_width_2_encoding(c) || has_width_3_encoding(c) {
        assert(leading_byte_width_2(c) < 0xF4 && leading_byte_width_3(c) < 0xF4) by (bit_vector);
        assert(splits_at(x, y, 0));
    } else {
        assert(leading_byte_width_4(c) <= 0xF4) by (bit_vector)
            requires
                c < 0x10FFFF,
        ;
        assert(leading_byte_width_4(c) == 0xF4 ==> third_last_continuation_byte(c) <= 0x8F)
            by (bit_vector)
            requires
                c < 0x10FFFF,
        ;
        assert(second_last_continuation_byte(c) <= 0xBF && last_continuation_byte(c) <= 0xBF)
            by (bit_vector);
        assert(!(leading_byte_width_4(c) == 0xF4 && third_last_continuation_byte(c) == 0x8F
            && second_last_continuation_byte(c) == 0xBF && last_continuation_byte(c) == 0xBF))
            by (bit_vector)
            requires
                c < 0x10FFFF,
        ;
        if x[0] < y[0] {
            assert(splits_at(x, y, 0));
        } else if x[1] < y[1] {
            assert(x.take(1) =~= y.take(1));
            assert(splits_at(x, y, 1));
        } else if x[2] < y[2] {
            assert(x.take(2) =~= y.take(2));
            assert(splits_at(x, y, 2));
        } else {
            assert(x.take(3) =~= y.take(3));
            assert(splits_at(x, y, 3));
        }
    }
}

pub proof fn lemma_largest_len(n: nat)
    ensures
        encode_utf8(largest(n)).len() == 4 * n,
    decreases n,
{
    if n > 0 {
        lemma_largest_len((n - 1) as nat);
        lemma_largest_character();
        assert(largest(n).drop_first() =~= largest((n - 1) as nat));
    }
}

/// A text whose encoding is shorter than that of `n` times the largest character comes before it.
pub proof fn largest_comes_last(s: Seq<char>, n: nat)
    requires
        encode_utf8(s).len() < 4 * n,
    ensures
        key_less(s, largest(n)),
    decreases n,
{
    let x = encode_utf8(s);
    let y = encode_utf8(largest(n));
    lemma_largest_len(n);
    assert(largest(n).drop_first() =~= largest((n - 1) as nat));
    let top = encode_scalar(0x10FFFF);
    let rest = encode_utf8(largest((n - 1) as nat));
    assert(y =~= top + rest);
    if s.len() == 0 {
        assert(x.take(0) =~= y.take(0));
        assert(splits_at(x, y, 0));
    } else {
        let head = encode_scalar(s[0] as u32);
        let tail = encode_utf8(s.drop_first());
        assert(x =~= head + tail);
        if s[0] == '\u{10FFFF}' {
            lemma_largest_character();
            largest_comes_last(s.drop_first(), (n - 1) as nat);
            common_prefix_keeps_order(top, tail, rest);
        } else {
            vstd::utf8::char_is_scalar(s[0]);
            if s[0] as u32 == 0x10FFFF {
                vstd::utf8::char_u32_cast(s[0], 0x10FFFF);
                vstd::utf8::char_u32_cast('\u{10FFFF}', 0x10FFFF);
            }
            lemma_smaller_character(s[0] as u32);
            let i = choose|i: int| i < head.len() && splits_at(head, top, i);
            assert(x.take(i) =~= head.take(i));
            assert(y.take(i) =~= top.take(i));
            assert(splits_at(x, y, i));
        }
    }
}

/// Of two texts the one that the other starts with comes first, and else the first byte that differs
/// decides.
pub proof fn the_first_difference_decides(
    p: Seq<u8>,
    x: u8,
    y: u8,
    rest: Seq<u8>,
    other: Seq<u8>,
)
    ensures
        bytes_less(p, p + seq![x] + rest),
        x < y ==> bytes_less(p + seq![x] + rest, p + seq![y] + other),
        x < y ==> !bytes_less(p + seq![y] + other, p + seq![x] + rest),
{
    let a = p + seq![x] + rest;
    let b = p + seq![y] + other;
    let i = p.len() as int;
    assert(a.take(i) =~= p);
    assert(b.take(i) =~= p);
    assert(p.take(i) =~= p);
    assert(splits_at(p, a, i));
    if x < y {
        assert(splits_at(a, b, i));
        order_is_strict(a, b);
    }
}

} // verus!
