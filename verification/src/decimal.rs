//! Decimal rendering and parsing of integers, as used by every message the
//! library builds ("showing 2 of 42", "47:03", id lists).

use vstd::prelude::*;
use crate::text::string_push;

verus! {

/// The ASCII digit for `d` (`0 <= d < 10`).
pub open spec fn digit_char(d: nat) -> char {
    (('0' as u32) + d) as char
}

/// The decimal digits of `n`, most significant first, with no leading zero.
pub open spec fn dec(n: nat) -> Seq<char>
    decreases n,
{
    if n < 10 {
        seq![digit_char(n)]
    } else {
        dec(n / 10).push(digit_char(n % 10))
    }
}

/// The decimal rendering of a signed integer: a `-` sign before a negative one.
pub open spec fn dec_int(i: int) -> Seq<char> {
    if i < 0 {
        seq!['-'] + dec((-i) as nat)
    } else {
        dec(i as nat)
    }
}

/// `n` rendered on at least two digits (a leading `0` for single digits).
pub open spec fn dec_pad2(n: nat) -> Seq<char> {
    if n < 10 {
        seq!['0', digit_char(n)]
    } else {
        dec(n)
    }
}

/// Whether `c` is an ASCII decimal digit.
pub open spec fn is_digit(c: char) -> bool {
    '0' <= c && c <= '9'
}

/// The value of the ASCII digit `c`.
pub open spec fn digit_value(c: char) -> nat {
    ((c as u32) - ('0' as u32)) as nat
}

/// The value of a non-empty run of decimal digits.
pub open spec fn digits_value(s: Seq<char>) -> nat
    decreases s.len(),
{
    if s.len() == 0 {
        0
    } else {
        digits_value(s.drop_last()) * 10 + digit_value(s.last())
    }
}

/// What `u64::from_str` gives: an optional leading `+`, then one or more ASCII
/// digits whose value fits in a `u64`; anything else is rejected.
pub open spec fn parse_u64_spec(s: Seq<char>) -> Option<u64> {
    parse_digits_spec(if s.len() > 0 && s[0] == '+' { s.drop_first() } else { s })
}

fn digit_of(d: u64) -> (c: char)
    requires
        d < 10,
    ensures
        c == digit_char(d as nat),
{
    let c = if d == 0 {
        '0'
    } else if d == 1 {
        '1'
    } else if d == 2 {
        '2'
    } else if d == 3 {
        '3'
    } else if d == 4 {
        '4'
    } else if d == 5 {
        '5'
    } else if d == 6 {
        '6'
    } else if d == 7 {
        '7'
    } else if d == 8 {
        '8'
    } else {
        '9'
    };
    c
}

/// Appends the decimal digits of `n` to `out`.
pub fn push_dec(out: &mut String, n: u64)
    ensures
        final(out)@ == old(out)@ + dec(n as nat),
    decreases n,
{
    if n >= 10 {
        push_dec(out, n / 10);
    }
    let c = digit_of(n % 10);
    string_push(out, c);
    proof {
        if n >= 10 {
            assert(old(out)@ + dec(n as nat) == (old(out)@ + dec((n / 10) as nat)).push(c));
        } else {
            assert(old(out)@ + dec(n as nat) == old(out)@.push(c));
        }
    }
}

/// Appends the decimal rendering of a signed integer to `out`.
pub fn push_dec_i64(out: &mut String, i: i64)
    ensures
        final(out)@ == old(out)@ + dec_int(i as int),
{
    if i < 0 {
        string_push(out, '-');
        let m: u64 = if i == i64::MIN {
            9223372036854775808u64
        } else {
            (-i) as u64
        };
        push_dec(out, m);
        proof {
            assert(old(out)@ + dec_int(i as int) == old(out)@.push('-') + dec(m as nat));
        }
    } else {
        push_dec(out, i as u64);
    }
}

/// Appends `n` on at least two digits (`7` becomes `07`).
pub fn push_dec_pad2(out: &mut String, n: u64)
    ensures
        final(out)@ == old(out)@ + dec_pad2(n as nat),
{
    if n < 10 {
        string_push(out, '0');
        let c = digit_of(n);
        string_push(out, c);
        proof {
            assert(old(out)@ + dec_pad2(n as nat) == old(out)@.push('0').push(c));
        }
    } else {
        push_dec(out, n);
    }
}

/// The all-digits value check of [`parse_u64_spec`] on a sequence already
/// stripped of its sign.
pub open spec fn parse_digits_spec(t: Seq<char>) -> Option<u64> {
    if t.len() == 0 || !(forall|i: int| 0 <= i < t.len() ==> is_digit(#[trigger] t[i])) {
        None
    } else if digits_value(t) > u64::MAX {
        None
    } else {
        Some(digits_value(t) as u64)
    }
}

fn parse_digits(t: &Vec<char>) -> (r: Option<u64>)
    ensures
        r == parse_digits_spec(t@),
{
    if t.len() == 0 {
        return None;
    }
    let mut acc: u64 = 0;
    let mut overflow = false;
    let mut i: usize = 0;
    while i < t.len()
        invariant
            0 <= i <= t@.len(),
            forall|k: int| 0 <= k < i ==> is_digit(#[trigger] t@[k]),
            !overflow ==> acc as nat == digits_value(t@.take(i as int)),
            overflow ==> digits_value(t@.take(i as int)) > u64::MAX,
        decreases t@.len() - i,
    {
        let c = t[i];
        if c < '0' || c > '9' {
            proof {
                assert(!is_digit(t@[i as int]));
            }
            return None;
        }
        let d: u64 = (c as u32 - '0' as u32) as u64;
        let ghost prev = t@.take(i as int);
        proof {
            assert(t@.take(i + 1).drop_last() == prev);
            assert(t@.take(i + 1).last() == c);
        }
        if !overflow {
            if acc > (u64::MAX - d) / 10 {
                overflow = true;
                assert(acc * 10 + d > u64::MAX) by (nonlinear_arith)
                    requires
                        acc > (u64::MAX - d) / 10,
                        d < 10,
                ;
            } else {
                assert(acc * 10 + d <= u64::MAX) by (nonlinear_arith)
                    requires
                        acc <= (u64::MAX - d) / 10,
                        d < 10,
                ;
                acc = acc * 10 + d;
            }
        } else {
            assert(digits_value(prev) * 10 + d > u64::MAX) by (nonlinear_arith)
                requires
                    digits_value(prev) > u64::MAX,
            ;
        }
        i += 1;
    }
    proof {
        assert(t@.take(t@.len() as int) == t@);
    }
    if overflow {
        None
    } else {
        Some(acc)
    }
}

/// Parse an unsigned decimal integer exactly as `u64::from_str` does.
pub fn parse_u64(s: &str) -> (r: Option<u64>)
    ensures
        r == parse_u64_spec(s@),
{
    let chars = crate::text::str_chars(s);
    let start: usize = if chars.len() > 0 && chars[0] == '+' { 1 } else { 0 };
    let mut t: Vec<char> = Vec::new();
    let mut i: usize = start;
    while i < chars.len()
        invariant
            start <= i <= chars@.len(),
            t@ == chars@.subrange(start as int, i as int),
        decreases chars@.len() - i,
    {
        t.push(chars[i]);
        i += 1;
    }
    proof {
        if chars@.len() > 0 && chars@[0] == '+' {
            assert(t@ == s@.drop_first());
        } else {
            assert(t@ == s@);
        }
    }
    parse_digits(&t)
}

} // verus!
