//! Integers as byte sequences, lowest byte first and highest byte first.

use vstd::prelude::*;

verus! {

/// 256 to the power `n`: how many values `n` bytes can hold.
pub open spec fn pow256(n: nat) -> nat
    decreases n,
{
    if n == 0 {
        1
    } else {
        256 * pow256((n - 1) as nat)
    }
}

/// The `n` low bytes of `x`, lowest first.
pub open spec fn le_bytes(x: nat, n: nat) -> Seq<u8>
    decreases n,
{
    if n == 0 {
        Seq::empty()
    } else {
        seq![(x % 256) as u8] + le_bytes(x / 256, (n - 1) as nat)
    }
}

/// The number whose bytes, lowest first, are `b`.
pub open spec fn le_value(b: Seq<u8>) -> nat
    decreases b.len(),
{
    if b.len() == 0 {
        0
    } else {
        b[0] as nat + 256 * le_value(b.drop_first())
    }
}

/// The two's complement reading of a signed 64-bit number as an unsigned one.
pub open spec fn twos(x: i64) -> nat {
    if x >= 0 {
        x as nat
    } else {
        (x + 0x1_0000_0000_0000_0000) as nat
    }
}

/// The signed 64-bit number whose bits, read as those of an unsigned one, make `bits`.
pub open spec fn signed_of(bits: u64) -> i64 {
    if bits < 0x8000_0000_0000_0000 {
        bits as i64
    } else {
        (bits - 0x1_0000_0000_0000_0000) as i64
    }
}

pub proof fn lemma_le_bytes_len(x: nat, n: nat)
    ensures
        le_bytes(x, n).len() == n,
    decreases n,
{
    if n > 0 {
        lemma_le_bytes_len(x / 256, (n - 1) as nat);
    }
}

/// Writing a number in `n` bytes and reading it back gives the number, where it fits.
pub proof fn le_value_inverts_le_bytes(x: nat, n: nat)
    requires
        x < pow256(n),
    ensures
        le_value(le_bytes(x, n)) == x,
    decreases n,
{
    lemma_le_bytes_len(x, n);
    if n > 0 {
        le_value_inverts_le_bytes(x / 256, (n - 1) as nat);
        assert(le_bytes(x, n).drop_first() =~= le_bytes(x / 256, (n - 1) as nat));
    }
}

/// Reading bytes as a number and writing it in as many bytes gives the bytes.
pub proof fn le_bytes_inverts_le_value(b: Seq<u8>)
    ensures
        le_bytes(le_value(b), b.len()) == b,
        le_value(b) < pow256(b.len()),
    decreases b.len(),
{
    if b.len() > 0 {
        let rest = b.drop_first();
        le_bytes_inverts_le_value(rest);
        let v = le_value(b);
        assert(v == b[0] as nat + 256 * le_value(rest));
        assert(v % 256 == b[0] as nat);
        assert(v / 256 == le_value(rest));
        assert(seq![b[0]] + rest =~= b);
    }
}

pub proof fn lemma_pow256_values()
    ensures
        pow256(0) == 1,
        pow256(1) == 0x100,
        pow256(2) == 0x1_0000,
        pow256(4) == 0x1_0000_0000,
        pow256(8) == 0x1_0000_0000_0000_0000,
{
    reveal_with_fuel(pow256, 9);
}

pub proof fn lemma_pow256_monotone(m: nat, n: nat)
    requires
        m <= n,
    ensures
        0 < pow256(m) <= pow256(n),
    decreases n,
{
    if m < n {
        lemma_pow256_monotone(m, (n - 1) as nat);
    } else if n > 0 {
        lemma_pow256_monotone((n - 1) as nat, (n - 1) as nat);
    }
}

/// Appends the `n` low bytes of `x`, lowest first.
pub fn push_le(out: &mut Vec<u8>, x: u64, n: usize)
    requires
        n <= 8,
    ensures
        final(out)@ == old(out)@ + le_bytes(x as nat, n as nat),
{
    let ghost before = out@;
    let mut rest: u64 = x;
    let mut i: usize = 0;
    while i < n
        invariant
            i <= n,
            before + le_bytes(x as nat, n as nat) == out@ + le_bytes(rest as nat, (n - i) as nat),
        decreases n - i,
    {
        let low: u8 = (rest % 256) as u8;
        proof {
            assert(out@ + (seq![low] + le_bytes(rest as nat / 256, (n - i - 1) as nat)) =~= (
            out@.push(low)) + le_bytes(rest as nat / 256, (n - i - 1) as nat));
        }
        out.push(low);
        rest = rest / 256;
        i += 1;
    }
    assert(out@ + le_bytes(rest as nat, 0) =~= out@);
}

/// The number held, lowest byte first, in the `n` bytes of `b` that start at `at`.
pub fn read_le(b: &[u8], at: usize, n: usize) -> (x: u64)
    requires
        n <= 8,
        at + n <= b@.len(),
    ensures
        x == le_value(b@.subrange(at as int, at + n)),
        x < pow256(n as nat),
{
    let total: usize = b.len();
    let mut x: u64 = 0;
    let mut i: usize = n;
    while i > 0
        invariant
            i <= n <= 8,
            at + n <= total == b@.len(),
            x == le_value(b@.subrange(at + i, at + n)),
        decreases i,
    {
        proof {
            let now = b@.subrange(at + i, at + n);
            let next = b@.subrange(at + i - 1, at + n);
            assert(next.drop_first() =~= now);
            le_bytes_inverts_le_value(next);
            lemma_pow256_monotone(next.len(), 8);
            lemma_pow256_values();
        }
        i -= 1;
        x = x * 256 + b[at + i] as u64;
    }
    proof {
        le_bytes_inverts_le_value(b@.subrange(at as int, at + n));
    }
    x
}

/// The bits of a signed 64-bit number, as an unsigned one.
pub fn to_unsigned(x: i64) -> (bits: u64)
    ensures
        bits == twos(x),
{
    assert(x >= 0 ==> x as u64 == x) by (bit_vector);
    assert(x < 0 ==> x as u64 == x + 0x1_0000_0000_0000_0000) by (bit_vector);
    x as u64
}

/// The signed 64-bit number with the given bits.
pub fn to_signed(bits: u64) -> (x: i64)
    ensures
        bits == twos(x),
        x == signed_of(bits),
{
    assert(bits < 0x8000_0000_0000_0000 ==> bits as i64 == bits) by (bit_vector);
    assert(bits >= 0x8000_0000_0000_0000 ==> bits as i64 == bits - 0x1_0000_0000_0000_0000)
        by (bit_vector);
    bits as i64
}

// ---- highest byte first -----------------------------------------------------------------------

/// The `n` low bytes of `x`, highest first.
pub open spec fn be_bytes(x: nat, n: nat) -> Seq<u8>
    decreases n,
{
    if n == 0 {
        Seq::empty()
    } else {
        be_bytes(x / 256, (n - 1) as nat).push((x % 256) as u8)
    }
}

/// The number whose bytes, highest first, are `b`.
pub open spec fn be_value(b: Seq<u8>) -> nat
    decreases b.len(),
{
    if b.len() == 0 {
        0
    } else {
        256 * be_value(b.drop_last()) + b.last() as nat
    }
}

pub proof fn lemma_be_bytes_len(x: nat, n: nat)
    ensures
        be_bytes(x, n).len() == n,
    decreases n,
{
    if n > 0 {
        lemma_be_bytes_len(x / 256, (n - 1) as nat);
    }
}

/// Writing a number in `n` bytes and reading it back gives the number, where it fits.
pub proof fn be_value_inverts_be_bytes(x: nat, n: nat)
    requires
        x < pow256(n),
    ensures
        be_value(be_bytes(x, n)) == x,
    decreases n,
{
    if n > 0 {
        be_value_inverts_be_bytes(x / 256, (n - 1) as nat);
        assert(be_bytes(x, n).drop_last() =~= be_bytes(x / 256, (n - 1) as nat));
    }
}

/// Reading bytes as a number and writing it in as many bytes gives the bytes.
pub proof fn be_bytes_inverts_be_value(b: Seq<u8>)
    ensures
        be_bytes(be_value(b), b.len()) == b,
        be_value(b) < pow256(b.len()),
    decreases b.len(),
{
    if b.len() > 0 {
        let front = b.drop_last();
        be_bytes_inverts_be_value(front);
        let v = be_value(b);
        assert(v % 256 == b.last() as nat);
        assert(v / 256 == be_value(front));
        assert(front.push(b.last()) =~= b);
    }
}

/// The `n` low bytes of `x`, highest first.
pub fn write_be(x: u128, n: usize) -> (out: Vec<u8>)
    ensures
        out@ == be_bytes(x as nat, n as nat),
    decreases n,
{
    if n == 0 {
        return Vec::new();
    }
    let mut out: Vec<u8> = write_be(x / 256, n - 1);
    out.push((x % 256) as u8);
    out
}

/// The number held, highest byte first, in the first `n` bytes of `b`.
pub fn read_be(b: &[u8], n: usize) -> (x: u128)
    requires
        n <= 16,
        n <= b@.len(),
    ensures
        x == be_value(b@.take(n as int)),
{
    let mut x: u128 = 0;
    let mut i: usize = 0;
    while i < n
        invariant
            i <= n <= 16,
            n <= b@.len(),
            x == be_value(b@.take(i as int)),
        decreases n - i,
    {
        proof {
            let next = b@.take(i + 1);
            assert(next.drop_last() =~= b@.take(i as int));
            be_bytes_inverts_be_value(next);
            lemma_pow256_monotone(next.len(), 16);
            reveal_with_fuel(pow256, 17);
        }
        x = x * 256 + b[i] as u128;
        i += 1;
    }
    x
}

/// The lowest byte of a number stands first in the one order and last in the other, and the rest of the
/// number stands in the other bytes.
pub proof fn bytes_stand_in_their_order(x: nat, n: nat)
    requires
        n > 0,
    ensures
        le_bytes(x, n)[0] == x % 256,
        le_bytes(x, n).skip(1) == le_bytes(x / 256, (n - 1) as nat),
        be_bytes(x, n).last() == x % 256,
        be_bytes(x, n).drop_last() == be_bytes(x / 256, (n - 1) as nat),
{
    assert(le_bytes(x, n).skip(1) =~= le_bytes(x / 256, (n - 1) as nat));
    assert(be_bytes(x, n).drop_last() =~= be_bytes(x / 256, (n - 1) as nat));
}

/// A signed number and its bits are two ways to write the same: the ones that are not negative stand for
/// themselves, and the others for what is left to the full range.
pub proof fn signed_numbers_and_their_bits(x: i64, bits: u64)
    ensures
        signed_of(twos(x) as u64) == x,
        twos(signed_of(bits)) == bits,
        x >= 0 ==> twos(x) == x,
        x < 0 ==> twos(x) - x == 0x1_0000_0000_0000_0000,
{
}

} // verus!
