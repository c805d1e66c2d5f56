//! Integers as text: printing in a base, and reading back.

use vstd::prelude::*;
use crate::text::{chars_of, push_text};

verus! {

/// The digit with value `d`, in lower case.
pub open spec fn digit(d: int) -> char {
    if d == 0 {
        '0'
    } else if d == 1 {
        '1'
    } else if d == 2 {
        '2'
    } else if d == 3 {
        '3'
    } else if d == 4 {
        '4'
    } else if d == 5 {
        '5'
    } else if d == 6 {
        '6'
    } else if d == 7 {
        '7'
    } else if d == 8 {
        '8'
    } else if d == 9 {
        '9'
    } else if d == 10 {
        'a'
    } else if d == 11 {
        'b'
    } else if d == 12 {
        'c'
    } else if d == 13 {
        'd'
    } else if d == 14 {
        'e'
    } else {
        'f'
    }
}

fn digit_char(d: u64) -> (c: char)
    requires
        d < 16,
    ensures
        c == digit(d as int),
{
    match d {
        0 => '0',
        1 => '1',
        2 => '2',
        3 => '3',
        4 => '4',
        5 => '5',
        6 => '6',
        7 => '7',
        8 => '8',
        9 => '9',
        10 => 'a',
        11 => 'b',
        12 => 'c',
        13 => 'd',
        14 => 'e',
        _ => 'f',
    }
}

/// `n` in decimal.
pub open spec fn dec(n: nat) -> Seq<char>
    decreases n,
{
    if n < 10 {
        seq![digit(n as int)]
    } else {
        dec(n / 10).push(digit((n % 10) as int))
    }
}

/// `n` in lower-case hexadecimal, without a prefix.
pub open spec fn hex(n: nat) -> Seq<char>
    decreases n,
{
    if n < 16 {
        seq![digit(n as int)]
    } else {
        hex(n / 16).push(digit((n % 16) as int))
    }
}

/// A signed number in decimal.
pub open spec fn signed_dec(i: int) -> Seq<char> {
    if i < 0 {
        seq!['-'] + dec((-i) as nat)
    } else {
        dec(i as nat)
    }
}

/// `n` in hexadecimal behind `0x`.
pub open spec fn prefixed_hex(n: nat) -> Seq<char> {
    "0x"@ + hex(n)
}

/// `n` in hexadecimal with at least eight digits.
pub open spec fn padded_hex(n: nat) -> Seq<char> {
    let h = hex(n);
    if h.len() < 8 {
        Seq::new((8 - h.len()) as nat, |i: int| '0') + h
    } else {
        h
    }
}

fn one_digit(n: u64) -> (r: Vec<char>)
    requires
        n < 16,
    ensures
        r@ == seq![digit(n as int)],
{
    let mut r: Vec<char> = Vec::new();
    r.push(digit_char(n));
    assert(r@ =~= seq![digit(n as int)]);
    r
}

pub fn dec_text(n: u64) -> (r: Vec<char>)
    ensures
        r@ == dec(n as nat),
    decreases n,
{
    if n < 10 {
        one_digit(n)
    } else {
        let mut r = dec_text(n / 10);
        r.push(digit_char(n % 10));
        r
    }
}

pub fn hex_text(n: u64) -> (r: Vec<char>)
    ensures
        r@ == hex(n as nat),
    decreases n,
{
    if n < 16 {
        one_digit(n)
    } else {
        let mut r = hex_text(n / 16);
        r.push(digit_char(n % 16));
        r
    }
}

/// The distance of `i` from zero.
pub fn magnitude(i: i64) -> (r: u64)
    ensures
        r == if i < 0 {
            -(i as int)
        } else {
            i as int
        },
{
    if i >= 0 {
        i as u64
    } else {
        (-(i + 1)) as u64 + 1
    }
}

pub fn signed_dec_text(i: i64) -> (r: Vec<char>)
    ensures
        r@ == signed_dec(i as int),
{
    let d = dec_text(magnitude(i));
    if i < 0 {
        let mut r: Vec<char> = Vec::new();
        r.push('-');
        assert(r@ =~= seq!['-']);
        push_text(&mut r, &d);
        r
    } else {
        d
    }
}

pub fn prefixed_hex_text(n: u64) -> (r: Vec<char>)
    ensures
        r@ == prefixed_hex(n as nat),
{
    let mut r = chars_of("0x");
    let h = hex_text(n);
    push_text(&mut r, &h);
    r
}

pub fn padded_hex_text(n: u64) -> (r: Vec<char>)
    ensures
        r@ == padded_hex(n as nat),
{
    let h = hex_text(n);
    if h.len() < 8 {
        let mut r: Vec<char> = Vec::new();
        while r.len() < 8 - h.len()
            invariant
                h@.len() < 8,
                r@.len() <= 8 - h@.len(),
                forall|i: int| 0 <= i < r@.len() ==> r@[i] == '0',
            decreases 8 - r@.len(),
        {
            r.push('0');
        }
        assert(r@ =~= Seq::new((8 - h@.len()) as nat, |i: int| '0'));
        push_text(&mut r, &h);
        r
    } else {
        h
    }
}

// ─── Reading ────────────────────────────────────────────────────────────────

/// The value of `c` as a digit in base `base`.
pub open spec fn digit_value(c: char, base: int) -> Option<int> {
    let v = if '0' <= c && c <= '9' {
        c as int - '0' as int
    } else if 'a' <= c && c <= 'f' {
        c as int - 'a' as int + 10
    } else if 'A' <= c && c <= 'F' {
        c as int - 'A' as int + 10
    } else {
        99
    };
    if v < base {
        Some(v)
    } else {
        None
    }
}

fn digit_of(c: char, base: u64) -> (r: Option<u64>)
    requires
        base <= 16,
    ensures
        r is Some <==> digit_value(c, base as int) is Some,
        r is Some ==> r->0 == digit_value(c, base as int)->0 && r->0 < 16,
{
    let u: u32 = c as u32;
    let v: u64 = if '0' <= c && c <= '9' {
        (u - 48) as u64
    } else if 'a' <= c && c <= 'f' {
        (u - 97) as u64 + 10
    } else if 'A' <= c && c <= 'F' {
        (u - 65) as u64 + 10
    } else {
        99
    };
    if v < base {
        Some(v)
    } else {
        None
    }
}

/// The number that the digits `t` stand for; every character must be a digit.
pub open spec fn digits_value(t: Seq<char>, base: int) -> Option<int>
    decreases t.len(),
{
    if t.len() == 0 {
        Some(0)
    } else {
        match (digits_value(t.drop_last(), base), digit_value(t.last(), base)) {
            (Some(v), Some(d)) => Some(v * base + d),
            _ => None,
        }
    }
}

/// A prefix of the digits stands for no larger number.
proof fn lemma_digits_prefix(t: Seq<char>, base: int, i: int)
    requires
        0 <= i <= t.len(),
        1 <= base,
        digits_value(t, base) is Some,
    ensures
        digits_value(t.take(i), base) is Some,
        0 <= digits_value(t.take(i), base)->0 <= digits_value(t, base)->0,
    decreases t.len(),
{
    if i == t.len() {
        assert(t.take(i) =~= t);
        if t.len() > 0 {
            lemma_digits_prefix(t.drop_last(), base, t.len() - 1);
            assert(t.drop_last().take(t.len() - 1) =~= t.drop_last());
            let v = digits_value(t.drop_last(), base)->0;
            assert(v * base >= 0) by (nonlinear_arith)
                requires
                    v >= 0,
                    base >= 1,
            ;
        }
    } else {
        lemma_digits_prefix(t.drop_last(), base, i);
        assert(t.drop_last().take(i) =~= t.take(i));
        let v = digits_value(t.drop_last(), base)->0;
        assert(v * base >= v) by (nonlinear_arith)
            requires
                v >= 0,
                base >= 1,
        ;
    }
}

/// The digits `t` as a number, if it is at most `max`.
fn read_digits(t: &Vec<char>, start: usize, base: u64, max: u64) -> (r: Option<u64>)
    requires
        2 <= base <= 16,
        start <= t@.len(),
    ensures
        match digits_value(t@.skip(start as int), base as int) {
            Some(v) => if v <= max {
                r is Some && r->0 == v
            } else {
                r is None
            },
            None => r is None,
        },
{
    let ghost s = t@.skip(start as int);
    let mut acc: u128 = 0;
    let mut i: usize = start;
    assert(s.take(0) =~= Seq::empty());
    while i < t.len()
        invariant
            start <= i <= t@.len(),
            2 <= base <= 16,
            s == t@.skip(start as int),
            acc <= max,
            digits_value(s.take(i - start), base as int) == Some(acc as int),
        decreases t@.len() - i,
    {
        let ghost k = i - start;
        assert(s.take(k + 1).drop_last() =~= s.take(k));
        assert(s.take(k + 1).last() == t@[i as int]);
        match digit_of(t[i], base) {
            Some(d) => {
                assert(acc * base <= 0x1_0000_0000_0000_0000 * 16) by (nonlinear_arith)
                    requires
                        acc <= 0xffff_ffff_ffff_ffff,
                        base <= 16,
                ;
                acc = acc * (base as u128) + d as u128;
                if acc > max as u128 {
                    proof {
                        if digits_value(s, base as int) is Some {
                            lemma_digits_prefix(s, base as int, k + 1);
                        }
                    }
                    return None;
                }
            },
            None => {
                proof {
                    if digits_value(s, base as int) is Some {
                        lemma_digits_prefix(s, base as int, k + 1);
                    }
                }
                return None;
            },
        }
        i += 1;
    }
    assert(s.take(s.len() as int) =~= s);
    Some(acc as u64)
}

/// The signed 64-bit number that `t` reads as in base `base`: an optional sign
/// and at least one digit.
pub open spec fn read_signed(t: Seq<char>, base: int) -> Option<int> {
    let signed = t.len() > 0 && (t[0] == '-' || t[0] == '+');
    let body = if signed {
        t.skip(1)
    } else {
        t.skip(0)
    };
    if body.len() == 0 {
        None
    } else {
        match digits_value(body, base) {
            Some(v) => {
                let i = if signed && t[0] == '-' {
                    -v
                } else {
                    v
                };
                if i64::MIN <= i <= i64::MAX {
                    Some(i)
                } else {
                    None
                }
            },
            None => None,
        }
    }
}

/// The number in an optional result.
pub open spec fn opt_int(o: Option<i64>) -> Option<int> {
    match o {
        Some(v) => Some(v as int),
        None => None,
    }
}

pub fn read_i64(t: &Vec<char>, base: u64) -> (r: Option<i64>)
    requires
        2 <= base <= 16,
    ensures
        opt_int(r) == read_signed(t@, base as int),
{
    if t.len() == 0 {
        return None;
    }
    let minus = t[0] == '-';
    let signed = minus || t[0] == '+';
    let start: usize = if signed {
        1
    } else {
        0
    };
    if start == t.len() {
        return None;
    }
    proof {
        if digits_value(t@.skip(start as int), base as int) is Some {
            lemma_digits_prefix(t@.skip(start as int), base as int, 0);
        }
    }
    let max: u64 = if minus {
        0x8000_0000_0000_0000
    } else {
        0x7fff_ffff_ffff_ffff
    };
    match read_digits(t, start, base, max) {
        Some(v) => if minus {
            if v == 0x8000_0000_0000_0000 {
                Some(i64::MIN)
            } else {
                Some(-(v as i64))
            }
        } else {
            Some(v as i64)
        },
        None => None,
    }
}

/// The unsigned 64-bit number that `t` reads as in base `base`: an optional plus
/// sign and at least one digit.
pub open spec fn read_unsigned(t: Seq<char>, base: int) -> Option<int> {
    let body = if t.len() > 0 && t[0] == '+' {
        t.skip(1)
    } else {
        t.skip(0)
    };
    if body.len() == 0 {
        None
    } else {
        match digits_value(body, base) {
            Some(v) => if v <= u64::MAX {
                Some(v)
            } else {
                None
            },
            None => None,
        }
    }
}

pub fn read_u64(t: &Vec<char>, base: u64) -> (r: Option<u64>)
    requires
        2 <= base <= 16,
    ensures
        r is Some <==> read_unsigned(t@, base as int) is Some,
        r is Some ==> r->0 == read_unsigned(t@, base as int)->0,
{
    if t.len() == 0 {
        return None;
    }
    let start: usize = if t[0] == '+' {
        1
    } else {
        0
    };
    if start == t.len() {
        return None;
    }
    read_digits(t, start, base, u64::MAX)
}

// ─── Reading back ───────────────────────────────────────────────────────────

/// A digit is the character at its place in `0123456789abcdef`, and reads as its place.
pub proof fn law_digits(d: int, base: int)
    requires
        0 <= d < base <= 16,
    ensures
        digit(d) == "0123456789abcdef"@[d],
        digit_value(digit(d), base) == Some(d),
{
    reveal_strlit("0123456789abcdef");
}

proof fn lemma_dec_reads(n: nat)
    ensures
        digits_value(dec(n), 10) == Some(n as int),
        dec(n).len() > 0,
        dec(n)[0] == digit(0) ==> n == 0,
        '0' <= dec(n)[0] <= '9',
    decreases n,
{
    law_digits((n % 10) as int, 10);
    if n < 10 {
        assert(dec(n).drop_last() =~= Seq::<char>::empty());
        reveal_with_fuel(digits_value, 2);
    } else {
        lemma_dec_reads(n / 10);
        assert(dec(n).drop_last() =~= dec(n / 10));
    }
}

proof fn lemma_hex_reads(n: nat)
    ensures
        digits_value(hex(n), 16) == Some(n as int),
        hex(n).len() > 0,
        hex(n)[0] == digit(0) ==> n == 0,
        hex(n)[0] != '+',
    decreases n,
{
    law_digits((n % 16) as int, 16);
    if n < 16 {
        assert(hex(n).drop_last() =~= Seq::<char>::empty());
        reveal_with_fuel(digits_value, 2);
    } else {
        lemma_hex_reads(n / 16);
        assert(hex(n).drop_last() =~= hex(n / 16));
    }
}

proof fn lemma_zeros(k: nat, t: Seq<char>)
    ensures
        digits_value(Seq::new(k, |i: int| '0') + t, 16) == digits_value(t, 16),
    decreases k + t.len(),
{
    let z = Seq::new(k, |i: int| '0');
    if t.len() > 0 {
        lemma_zeros(k, t.drop_last());
        assert((z + t).drop_last() =~= z + t.drop_last());
    } else if k > 0 {
        lemma_zeros((k - 1) as nat, t);
        assert((z + t).drop_last() =~= Seq::new((k - 1) as nat, |i: int| '0') + t);
        assert((z + t).last() == '0');
    } else {
        assert(z + t =~= t);
    }
}

/// What is written of a number reads as the number: in decimal, in hexadecimal, padded, and
/// with a sign. There is no leading zero but that of zero itself, and padding makes at least
/// eight digits.
pub proof fn law_numbers_read_back(n: nat, i: int)
    ensures
        digits_value(dec(n), 10) == Some(n as int),
        digits_value(hex(n), 16) == Some(n as int),
        digits_value(padded_hex(n), 16) == Some(n as int),
        n <= u64::MAX ==> read_unsigned(dec(n), 10) == Some(n as int) && read_unsigned(hex(n), 16) == Some(n as int),
        i64::MIN <= i <= i64::MAX ==> read_signed(signed_dec(i), 10) == Some(i),
        dec(n).len() > 0 && (dec(n)[0] == '0' ==> n == 0),
        hex(n).len() > 0 && (hex(n)[0] == '0' ==> n == 0),
        padded_hex(n).len() >= 8,
        padded_hex(n).len() > 8 ==> padded_hex(n) == hex(n),
        prefixed_hex(n) == "0x"@ + hex(n),
{
    lemma_dec_reads(n);
    lemma_hex_reads(n);
    let h = hex(n);
    if h.len() < 8 {
        lemma_zeros((8 - h.len()) as nat, h);
    }
    assert(dec(n).skip(0) =~= dec(n));
    assert(hex(n).skip(0) =~= hex(n));
    let a = (if i < 0 {
        -i
    } else {
        i
    }) as nat;
    lemma_dec_reads(a);
    assert((seq!['-'] + dec(a)).skip(1) =~= dec(a));
    assert(dec(a).skip(0) =~= dec(a));
}

} // verus!
