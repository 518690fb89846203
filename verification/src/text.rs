//! Text as sequences of characters: digits, prefixes, and the numbers that key names carry.

use crate::codes::hex_char;
use vstd::prelude::*;

verus! {

/// `String::push` appends one character.
pub assume_specification[ String::push ](s: &mut String, c: char)
    ensures
        final(s)@ == old(s)@.push(c),
;

/// The characters of a text.
pub fn chars_of(s: &str) -> (chars: Vec<char>)
    ensures
        chars@ == s@,
{
    let mut chars: Vec<char> = Vec::new();
    for c in iter: s.chars()
        invariant
            iter.seq() == s@,
            chars@.len() == iter.index(),
            forall|j: int| 0 <= j < chars@.len() ==> chars@[j] == iter.seq()[j],
    {
        chars.push(c);
    }
    assert(chars@ =~= s@);
    chars
}

/// The text made of the characters from `from` up to `to`.
pub fn text_between(chars: &Vec<char>, from: usize, to: usize) -> (s: String)
    requires
        from <= to <= chars@.len(),
    ensures
        s@ == chars@.subrange(from as int, to as int),
{
    let mut s: String = String::new();
    let mut i: usize = from;
    while i < to
        invariant
            from <= i <= to <= chars@.len(),
            s@ == chars@.subrange(from as int, i as int),
        decreases to - i,
    {
        s.push(chars[i]);
        i += 1;
        assert(s@ =~= chars@.subrange(from as int, i as int));
    }
    s
}

/// Whether two texts are the same.
pub fn same_text(a: &str, b: &str) -> (same: bool)
    ensures
        same == (a@ == b@),
{
    a.to_owned() == b.to_owned()
}

/// Whether a text begins with another.
pub fn has_prefix(chars: &Vec<char>, prefix: &str) -> (has: bool)
    ensures
        has == prefix@.is_prefix_of(chars@),
{
    let lead: Vec<char> = chars_of(prefix);
    if lead.len() > chars.len() {
        return false;
    }
    let mut i: usize = 0;
    while i < lead.len()
        invariant
            i <= lead@.len() <= chars@.len(),
            lead@ == prefix@,
            forall|j: int| 0 <= j < i ==> lead@[j] == chars@[j],
        decreases lead@.len() - i,
    {
        if lead[i] != chars[i] {
            assert(chars@.subrange(0, lead@.len() as int)[i as int] != lead@[i as int]);
            return false;
        }
        i += 1;
    }
    assert(prefix@ =~= chars@.subrange(0, lead@.len() as int));
    true
}

// ---- writing numbers --------------------------------------------------------------------------

/// The digit character of a number below ten.
pub open spec fn digit_char(d: nat) -> char {
    (48 + d) as char
}

/// The decimal digits of a number, without leading zeros.
pub open spec fn decimal(n: nat) -> Seq<char>
    decreases n,
{
    if n < 10 {
        seq![digit_char(n)]
    } else {
        decimal(n / 10).push(digit_char(n % 10))
    }
}

/// `n` zero digits.
pub open spec fn zeros(n: int) -> Seq<char> {
    Seq::new(
        if n > 0 {
            n as nat
        } else {
            0
        },
        |i: int| '0',
    )
}

/// A number in decimal, with zeros before its digits (and behind its sign) up to `width`.
pub open spec fn padded(n: int, width: int) -> Seq<char> {
    if n >= 0 {
        zeros(width - decimal(n as nat).len()) + decimal(n as nat)
    } else {
        seq!['-'] + zeros(width - 1 - decimal((-n) as nat).len()) + decimal((-n) as nat)
    }
}

/// The `w` low hexadecimal digits of a number, highest first.
pub open spec fn hex_digits(n: nat, w: nat) -> Seq<char>
    decreases w,
{
    if w == 0 {
        Seq::empty()
    } else {
        hex_digits(n / 16, (w - 1) as nat).push(hex_char(n % 16))
    }
}

/// Appends the decimal digits of `n`.
pub fn push_decimal(s: &mut String, n: u64)
    ensures
        final(s)@ == old(s)@ + decimal(n as nat),
    decreases n,
{
    let ghost before = s@;
    let d: u8 = 48 + (n % 10) as u8;
    if n >= 10 {
        push_decimal(s, n / 10);
    }
    s.push(d as char);
    assert(s@ =~= before + decimal(n as nat));
}

/// How many decimal digits a number has.
fn decimal_len(n: u64) -> (len: usize)
    ensures
        len == decimal(n as nat).len(),
        len <= 20,
{
    proof {
        reveal_with_fuel(decimal, 21);
    }
    let mut len: usize = 1;
    let mut rest: u64 = n / 10;
    while rest > 0
        invariant
            decimal(n as nat).len() == len + (if rest > 0 {
                decimal(rest as nat).len()
            } else {
                0
            }),
            len <= 20,
            decimal(n as nat).len() <= 20,
        decreases rest,
    {
        len += 1;
        rest = rest / 10;
    }
    len
}

/// Appends a number in decimal, padded with zeros to `width`.
pub fn push_padded(s: &mut String, n: i32, width: usize)
    requires
        width < 100,
    ensures
        final(s)@ == old(s)@ + padded(n as int, width as int),
{
    let ghost before = s@;
    let magnitude: u64 = if n >= 0 {
        n as u64
    } else {
        (-(n as i64)) as u64
    };
    let mut used: usize = decimal_len(magnitude);
    if n < 0 {
        s.push('-');
        used += 1;
    }
    let ghost lead = s@;
    let ghost start: int = used as int;
    while used < width
        invariant
            start <= used < 200,
            width < 100,
            used <= width || used == start,
            s@ == lead + zeros(used - start),
        decreases width - used,
    {
        s.push('0');
        used += 1;
        assert(s@ =~= lead + zeros(used - start));
    }
    push_decimal(s, magnitude);
    assert(s@ =~= before + padded(n as int, width as int));
}

/// Appends the `w` low hexadecimal digits of a number.
pub fn push_hex(s: &mut String, n: u64, w: usize)
    ensures
        final(s)@ == old(s)@ + hex_digits(n as nat, w as nat),
    decreases w,
{
    let ghost before = s@;
    if w > 0 {
        push_hex(s, n / 16, w - 1);
        let d: u8 = (n % 16) as u8;
        let c: u8 = if d < 10 {
            48 + d
        } else {
            87 + d
        };
        s.push(c as char);
    }
    assert(s@ =~= before + hex_digits(n as nat, w as nat));
}

// ---- reading numbers --------------------------------------------------------------------------

/// The value of a digit in a radix of at most 16, in either case; `None` for another character.
pub open spec fn digit_value(c: char, radix: nat) -> Option<nat> {
    let v: int = if '0' <= c <= '9' {
        c as int - 48
    } else if 'a' <= c <= 'f' {
        c as int - 87
    } else if 'A' <= c <= 'F' {
        c as int - 55
    } else {
        16
    };
    if v < radix {
        Some(v as nat)
    } else {
        None
    }
}

/// The number that digits stand for; `None` where a character is no digit.
pub open spec fn digits_value(s: Seq<char>, radix: nat) -> Option<nat>
    decreases s.len(),
{
    if s.len() == 0 {
        Some(0)
    } else {
        match (digits_value(s.drop_last(), radix), digit_value(s.last(), radix)) {
            (Some(v), Some(d)) => Some(v * radix + d),
            _ => None,
        }
    }
}

/// Digits, at least one, that stand for a number of at most `max`.
pub open spec fn bounded_digits(s: Seq<char>, radix: nat, max: nat) -> Option<nat> {
    match digits_value(s, radix) {
        Some(v) if s.len() > 0 && v <= max => Some(v),
        _ => None,
    }
}

/// An unsigned number as `from_str_radix` reads it: one plus sign may lead.
pub open spec fn parsed_unsigned(s: Seq<char>, radix: nat, max: nat) -> Option<nat> {
    if s.len() > 0 && s[0] == '+' {
        bounded_digits(s.skip(1), radix, max)
    } else {
        bounded_digits(s, radix, max)
    }
}

/// A signed decimal number as `parse` reads it: one sign may lead.
pub open spec fn parsed_signed(s: Seq<char>, min: int, max: int) -> Option<int> {
    if s.len() > 0 && s[0] == '-' {
        match bounded_digits(s.skip(1), 10, (-min) as nat) {
            Some(v) => Some(-(v as int)),
            None => None,
        }
    } else {
        match parsed_unsigned(s, 10, max as nat) {
            Some(v) => Some(v as int),
            None => None,
        }
    }
}

/// Digits stand for at least as much as any of their beginnings.
proof fn lemma_digits_prefix(s: Seq<char>, radix: nat, i: int)
    requires
        0 <= i <= s.len(),
        radix >= 1,
        digits_value(s, radix) is Some,
    ensures
        digits_value(s.take(i), radix) is Some,
        digits_value(s.take(i), radix)->0 <= digits_value(s, radix)->0,
    decreases s.len(),
{
    if i < s.len() {
        lemma_digits_prefix(s.drop_last(), radix, i);
        assert(s.drop_last().take(i) =~= s.take(i));
        let v = digits_value(s.drop_last(), radix)->0;
        assert(v <= v * radix) by (nonlinear_arith)
            requires
                radix >= 1,
        ;
    } else {
        assert(s.take(i) =~= s);
    }
}

fn read_digit(c: char, radix: u64) -> (d: Option<u64>)
    requires
        radix <= 16,
    ensures
        match d {
            Some(v) => v < radix && digit_value(c, radix as nat) == Some(v as nat),
            None => digit_value(c, radix as nat) is None,
        },
{
    let v: u32 = if '0' <= c && c <= '9' {
        c as u32 - 48
    } else if 'a' <= c && c <= 'f' {
        c as u32 - 87
    } else if 'A' <= c && c <= 'F' {
        c as u32 - 55
    } else {
        16
    };
    if (v as u64) < radix {
        Some(v as u64)
    } else {
        None
    }
}

/// Reads the digits from `from` up to `to`.
fn read_digits(chars: &Vec<char>, from: usize, to: usize, radix: u64, max: u64) -> (v: Option<u64>)
    requires
        from <= to <= chars@.len(),
        2 <= radix <= 16,
    ensures
        match v {
            Some(x) => bounded_digits(
                chars@.subrange(from as int, to as int),
                radix as nat,
                max as nat,
            ) == Some(x as nat),
            None => bounded_digits(
                chars@.subrange(from as int, to as int),
                radix as nat,
                max as nat,
            ) is None,
        },
{
    let ghost s = chars@.subrange(from as int, to as int);
    if from == to {
        return None;
    }
    let mut v: u64 = 0;
    let mut i: usize = from;
    while i < to
        invariant
            from <= i <= to <= chars@.len(),
            s == chars@.subrange(from as int, to as int),
            2 <= radix <= 16,
            v <= max,
            digits_value(s.take(i - from), radix as nat) == Some(v as nat),
        decreases to - i,
    {
        proof {
            assert(s.take(i - from + 1).drop_last() =~= s.take(i - from));
            assert(s.take(i - from + 1).last() == chars@[i as int]);
        }
        match read_digit(chars[i], radix) {
            Some(d) => {
                if d > max || v > (max - d) / radix {
                    proof {
                        if digits_value(s, radix as nat) is Some {
                            lemma_digits_prefix(s, radix as nat, i - from + 1);
                        }
                        if d <= max {
                            lemma_division_bound(v as nat, radix as nat, (max - d) as nat);
                        }
                        assert(0 <= v * radix) by (nonlinear_arith);
                    }
                    return None;
                }
                proof {
                    lemma_division_bound(v as nat, radix as nat, (max - d) as nat);
                }
                v = v * radix + d;
            },
            None => {
                proof {
                    if digits_value(s, radix as nat) is Some {
                        lemma_digits_prefix(s, radix as nat, i - from + 1);
                    }
                }
                return None;
            },
        }
        i += 1;
    }
    assert(s.take(to - from) =~= s);
    Some(v)
}

proof fn lemma_division_bound(v: nat, radix: nat, room: nat)
    requires
        radix >= 1,
    ensures
        v <= room / radix <==> v * radix <= room,
{
    let q = room / radix;
    assert(room == radix * q + room % radix && 0 <= room % radix < radix) by (nonlinear_arith)
        requires
            radix >= 1,
            q == room / radix,
    ;
    if v <= q {
        assert(v * radix <= q * radix) by (nonlinear_arith)
            requires
                v <= q,
        ;
        assert(q * radix == radix * q) by (nonlinear_arith);
    } else {
        assert(v * radix >= (q + 1) * radix) by (nonlinear_arith)
            requires
                v >= q + 1,
        ;
        assert((q + 1) * radix == radix * q + radix) by (nonlinear_arith);
    }
}

/// Reads the unsigned number that stands from `from` up to `to`.
pub fn read_unsigned(chars: &Vec<char>, from: usize, to: usize, radix: u64, max: u64) -> (v: Option<
    u64,
>)
    requires
        from <= to <= chars@.len(),
        2 <= radix <= 16,
    ensures
        match v {
            Some(x) => parsed_unsigned(
                chars@.subrange(from as int, to as int),
                radix as nat,
                max as nat,
            ) == Some(x as nat),
            None => parsed_unsigned(
                chars@.subrange(from as int, to as int),
                radix as nat,
                max as nat,
            ) is None,
        },
{
    let ghost s = chars@.subrange(from as int, to as int);
    if from < to && chars[from] == '+' {
        assert(s.skip(1) =~= chars@.subrange(from + 1, to as int));
        read_digits(chars, from + 1, to, radix, max)
    } else {
        read_digits(chars, from, to, radix, max)
    }
}

/// Reads the signed 32-bit number that stands from `from` up to `to`.
pub fn read_i32(chars: &Vec<char>, from: usize, to: usize) -> (v: Option<i32>)
    requires
        from <= to <= chars@.len(),
    ensures
        match v {
            Some(x) => parsed_signed(
                chars@.subrange(from as int, to as int),
                i32::MIN as int,
                i32::MAX as int,
            ) == Some(x as int),
            None => parsed_signed(
                chars@.subrange(from as int, to as int),
                i32::MIN as int,
                i32::MAX as int,
            ) is None,
        },
{
    let ghost s = chars@.subrange(from as int, to as int);
    if from < to && chars[from] == '-' {
        assert(s.skip(1) =~= chars@.subrange(from + 1, to as int));
        match read_digits(chars, from + 1, to, 10, 2147483648) {
            Some(v) => Some((-(v as i64)) as i32),
            None => None,
        }
    } else {
        match read_unsigned(chars, from, to, 10, 2147483647) {
            Some(v) => Some(v as i32),
            None => None,
        }
    }
}

/// Reads an unsigned 64-bit decimal number.
pub fn parse_u64(s: &str) -> (v: Option<u64>)
    ensures
        match v {
            Some(x) => parsed_unsigned(s@, 10, u64::MAX as nat) == Some(x as nat),
            None => parsed_unsigned(s@, 10, u64::MAX as nat) is None,
        },
{
    let chars: Vec<char> = chars_of(s);
    assert(chars@.subrange(0, chars@.len() as int) =~= chars@);
    read_unsigned(&chars, 0, chars.len(), 10, u64::MAX)
}

/// Reads a signed 64-bit decimal number.
pub fn parse_i64(s: &str) -> (v: Option<i64>)
    ensures
        match v {
            Some(x) => parsed_signed(s@, i64::MIN as int, i64::MAX as int) == Some(x as int),
            None => parsed_signed(s@, i64::MIN as int, i64::MAX as int) is None,
        },
{
    let chars: Vec<char> = chars_of(s);
    let n: usize = chars.len();
    assert(chars@.subrange(0, n as int) =~= chars@);
    if n > 0 && chars[0] == '-' {
        assert(s@.skip(1) =~= chars@.subrange(1, n as int));
        match read_digits(&chars, 1, n, 10, 0x8000_0000_0000_0000) {
            Some(v) => Some((-(v as i128)) as i64),
            None => None,
        }
    } else {
        match read_unsigned(&chars, 0, n, 10, 0x7fff_ffff_ffff_ffff) {
            Some(v) => Some(v as i64),
            None => None,
        }
    }
}

// ---- laws -------------------------------------------------------------------------------------

proof fn lemma_decimal_digit(d: nat)
    requires
        d < 10,
    ensures
        digit_value(digit_char(d), 10) == Some(d),
{
}

/// The decimal form of a number stands for the number, also with zeros before it.
pub proof fn padded_decimal_reads_back(n: nat, lead: nat)
    ensures
        digits_value(zeros(lead as int) + decimal(n), 10) == Some(n),
        decimal(n).len() > 0,
        forall|i: int| 0 <= i < decimal(n).len() ==> '0' <= #[trigger] decimal(n)[i] <= '9',
    decreases n, lead,
{
    if n >= 10 {
        padded_decimal_reads_back(n / 10, lead);
        let s = zeros(lead as int) + decimal(n);
        assert(s.drop_last() =~= zeros(lead as int) + decimal(n / 10));
        lemma_decimal_digit(n % 10);
    } else {
        let s = zeros(lead as int) + decimal(n);
        lemma_zeros_value(lead);
        assert(s.drop_last() =~= zeros(lead as int));
        lemma_decimal_digit(n);
    }
}

proof fn lemma_zeros_value(n: nat)
    ensures
        digits_value(zeros(n as int), 10) == Some(0nat),
        digits_value(zeros(n as int), 16) == Some(0nat),
    decreases n,
{
    if n > 0 {
        lemma_zeros_value((n - 1) as nat);
        assert(zeros(n as int).drop_last() =~= zeros(n - 1));
        assert(zeros(n as int).last() == '0');
    }
}

/// What `10` to the power `w` is.
pub open spec fn pow10(w: nat) -> nat
    decreases w,
{
    if w == 0 {
        1
    } else {
        10 * pow10((w - 1) as nat)
    }
}

/// A number that fits in a width is padded to it: the padded form of its tenth part, and its last
/// digit.
proof fn lemma_padded(n: nat, w: nat)
    requires
        n < pow10(w),
        w > 0,
    ensures
        padded(n as int, w as int).len() == w,
        padded(n as int, w as int).last() == digit_char(n % 10),
        w > 1 ==> padded(n as int, w as int) == padded((n / 10) as int, w - 1).push(
            digit_char(n % 10),
        ),
    decreases w,
{
    if w == 1 {
        assert(pow10(0) == 1);
    } else {
        lemma_padded(n / 10, (w - 1) as nat);
        assert(padded(n as int, w as int) =~= padded((n / 10) as int, w - 1).push(
            digit_char(n % 10),
        ));
    }
}

/// Where the padded forms of two numbers first differ, the smaller one has the smaller digit.
pub proof fn padded_numbers_compare_by_digits(m: nat, n: nat, w: nat) -> (at: int)
    requires
        m < n < pow10(w),
    ensures
        padded(m as int, w as int).len() == w,
        padded(n as int, w as int).len() == w,
        0 <= at < w,
        padded(m as int, w as int).take(at) == padded(n as int, w as int).take(at),
        padded(m as int, w as int)[at] < padded(n as int, w as int)[at],
    decreases w,
{
    lemma_padded(m, w);
    lemma_padded(n, w);
    let (a, b) = (padded(m as int, w as int), padded(n as int, w as int));
    if w > 1 {
        let (p, q) = (padded((m / 10) as int, w - 1), padded((n / 10) as int, w - 1));
        lemma_padded(m / 10, (w - 1) as nat);
        lemma_padded(n / 10, (w - 1) as nat);
        assert(a.drop_last() =~= p && b.drop_last() =~= q);
        if m / 10 < n / 10 {
            let at = padded_numbers_compare_by_digits(m / 10, n / 10, (w - 1) as nat);
            assert(a.take(at) =~= p.take(at));
            assert(b.take(at) =~= q.take(at));
            at
        } else {
            assert(a.take(w - 1) =~= p);
            assert(b.take(w - 1) =~= q);
            w - 1
        }
    } else {
        assert(pow10(0) == 1);
        assert(a.take(0) =~= b.take(0));
        0
    }
}

/// What `16` to the power `w` is.
pub open spec fn pow16(w: nat) -> nat
    decreases w,
{
    if w == 0 {
        1
    } else {
        16 * pow16((w - 1) as nat)
    }
}

/// Fixed-width hexadecimal digits stand for the number, where it fits.
pub proof fn hex_digits_read_back(n: nat, w: nat)
    requires
        n < pow16(w),
    ensures
        hex_digits(n, w).len() == w,
        digits_value(hex_digits(n, w), 16) == Some(n),
        forall|i: int|
            0 <= i < w ==> digit_value(#[trigger] hex_digits(n, w)[i], 16) is Some && hex_digits(
                n,
                w,
            )[i] != '+',
    decreases w,
{
    if w > 0 {
        hex_digits_read_back(n / 16, (w - 1) as nat);
        let s = hex_digits(n, w);
        assert(s.drop_last() =~= hex_digits(n / 16, (w - 1) as nat));
    }
}

/// A number that is read is within the bounds it is read for.
pub proof fn a_read_number_is_in_range(unsigned: Seq<char>, signed: Seq<char>)
    ensures
        parsed_unsigned(unsigned, 10, u64::MAX as nat) is Some ==> parsed_unsigned(
            unsigned,
            10,
            u64::MAX as nat,
        )->0 <= u64::MAX,
        parsed_signed(signed, i64::MIN as int, i64::MAX as int) is Some ==> i64::MIN
            <= parsed_signed(signed, i64::MIN as int, i64::MAX as int)->0 <= i64::MAX,
{
}

/// A number is written with no zero in front of it, and zero with one.
pub proof fn a_number_is_written_without_leading_zeros(n: nat)
    ensures
        n > 0 ==> decimal(n)[0] != '0',
        n == 0 ==> decimal(n) == seq!['0'],
    decreases n,
{
    if n >= 10 {
        a_number_is_written_without_leading_zeros(n / 10);
        padded_decimal_reads_back(n / 10, 0);
    }
}

/// A padded number has the width it is padded to, or more where it is longer; its sign comes first.
pub proof fn a_padded_number_has_its_width(n: nat, width: nat)
    ensures
        decimal(n).len() <= width ==> padded(n as int, width as int).len() == width,
        decimal(n).len() > width ==> padded(n as int, width as int) == decimal(n),
        n > 0 ==> padded(-n, width as int)[0] == '-',
        n > 0 && decimal(n).len() + 1 <= width ==> padded(-n, width as int).len() == width,
{
    if decimal(n).len() > width {
        assert(padded(n as int, width as int) =~= decimal(n));
    }
}

/// A number may have one sign in front of its digits: a plus changes nothing, a minus turns a signed
/// number round, and a sign alone is no number, nor is nothing.
pub proof fn a_number_is_read_with_its_sign(s: Seq<char>, radix: nat, max: nat, min: int)
    requires
        s.len() > 0,
        s[0] != '+' && s[0] != '-',
        min < 0,
    ensures
        parsed_unsigned(seq!['+'] + s, radix, max) == parsed_unsigned(s, radix, max),
        parsed_unsigned(seq!['+'] + s, radix, max) == bounded_digits(s, radix, max),
        parsed_unsigned(Seq::empty(), radix, max) is None,
        parsed_unsigned(seq!['+'], radix, max) is None,
        parsed_signed(seq!['-'], min, max as int) is None,
        bounded_digits(s, 10, (-min) as nat) is Some ==> parsed_signed(
            seq!['-'] + s,
            min,
            max as int,
        ) == Some(-(bounded_digits(s, 10, (-min) as nat)->0 as int)),
        bounded_digits(s, 10, (-min) as nat) is None ==> parsed_signed(
            seq!['-'] + s,
            min,
            max as int,
        ) is None,
        bounded_digits(s, 10, max) is Some ==> parsed_signed(s, min, max as int) == Some(
            bounded_digits(s, 10, max)->0 as int,
        ),
        bounded_digits(s, 10, max) is None ==> parsed_signed(s, min, max as int) is None,
{
    assert((seq!['+'] + s).skip(1) =~= s);
    assert((seq!['-'] + s).skip(1) =~= s);
    assert(seq!['+'].skip(1) =~= Seq::<char>::empty());
    assert(seq!['-'].skip(1) =~= Seq::<char>::empty());
}

/// Digits are read from the left, each worth the radix times the one behind it; one that is no digit
/// spoils them, and they are refused above their bound.
pub proof fn digits_are_read_from_the_left(s: Seq<char>, c: char, radix: nat, max: nat)
    requires
        1 < radix <= 16,
    ensures
        digits_value(s, radix) is Some && digit_value(c, radix) is Some ==> digits_value(
            s.push(c),
            radix,
        ) == Some(digits_value(s, radix)->0 * radix + digit_value(c, radix)->0),
        digits_value(s, radix) is None || digit_value(c, radix) is None ==> digits_value(
            s.push(c),
            radix,
        ) is None,
        '0' <= c <= '9' && (c as int - '0' as int) < radix ==> digit_value(c, radix) == Some(
            (c as int - '0' as int) as nat,
        ),
        'a' <= c <= 'f' && (c as int - 'a' as int + 10) < radix ==> digit_value(c, radix) == Some(
            (c as int - 'a' as int + 10) as nat,
        ),
        'A' <= c <= 'F' && (c as int - 'A' as int + 10) < radix ==> digit_value(c, radix) == Some(
            (c as int - 'A' as int + 10) as nat,
        ),
        !('0' <= c <= '9') && !('a' <= c <= 'f') && !('A' <= c <= 'F') ==> digit_value(c, radix) is None,
        radix == 10 && !('0' <= c <= '9') ==> digit_value(c, radix) is None,
        bounded_digits(s, radix, max) is Some <==> s.len() > 0 && digits_value(s, radix) is Some
            && digits_value(s, radix)->0 <= max,
        bounded_digits(s, radix, max) is Some ==> bounded_digits(s, radix, max) == digits_value(
            s,
            radix,
        ),
{
    assert(s.push(c).drop_last() =~= s);
}

} // verus!
