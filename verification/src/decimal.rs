//! Decimal text of integers, and `true`/`false`: the textual forms of the
//! primitive values.
//!
//! A number is written with the fewest digits, and with a `-` in front if it
//! is negative. It is read from an optional sign and one or more digits; a
//! `-` is a sign only where negative numbers can be read. Leading zeros are
//! read, not written.

use vstd::prelude::*;
use crate::text::{split_first, str_eq};

verus! {

/// The digit `d`, for `0 <= d <= 9`.
pub open spec fn digit_char(d: int) -> char {
    (d + 48) as char
}

/// Whether `c` is one of `0` to `9`.
pub open spec fn is_digit(c: char) -> bool {
    '0' <= c <= '9'
}

/// The number that the digit `c` stands for.
pub open spec fn digit_value(c: char) -> int {
    c as int - 48
}

/// The digits of `n`, most significant first, without leading zeros.
pub open spec fn decimal(n: nat) -> Seq<char>
    decreases n,
{
    if n < 10 {
        seq![digit_char(n as int)]
    } else {
        decimal(n / 10).push(digit_char((n % 10) as int))
    }
}

/// The decimal text of `n`: its digits, behind a `-` if it is negative.
pub open spec fn signed_decimal(n: int) -> Seq<char> {
    if n < 0 {
        seq!['-'] + decimal((-n) as nat)
    } else {
        decimal(n as nat)
    }
}

/// Whether `s` is made of digits only.
pub open spec fn all_digits(s: Seq<char>) -> bool {
    forall|i: int| 0 <= i < s.len() ==> is_digit(#[trigger] s[i])
}

/// The number that a sequence of digits stands for.
pub open spec fn digits_value(s: Seq<char>) -> nat
    decreases s.len(),
{
    if s.len() == 0 {
        0
    } else {
        (digits_value(s.drop_last()) * 10 + digit_value(s.last())) as nat
    }
}

/// Whether `s` starts with a sign: `+`, or `-` where negative numbers are read.
pub open spec fn has_sign(s: Seq<char>, signed: bool) -> bool {
    s.len() > 0 && (s[0] == '+' || (signed && s[0] == '-'))
}

/// The number that `s` stands for: an optional sign and at least one
/// digit, nothing else. `None` for any other text.
pub open spec fn parse_int(s: Seq<char>, signed: bool) -> Option<int> {
    let digits = if has_sign(s, signed) {
        s.skip(1)
    } else {
        s
    };
    if digits.len() == 0 || !all_digits(digits) {
        None
    } else if has_sign(s, signed) && s[0] == '-' {
        Some(-(digits_value(digits) as int))
    } else {
        Some(digits_value(digits) as int)
    }
}

/// The number that `s` stands for, if it lies between `lo` and `hi`.
pub open spec fn parse_within(s: Seq<char>, signed: bool, lo: int, hi: int) -> Option<int> {
    match parse_int(s, signed) {
        Some(v) => if lo <= v <= hi {
            Some(v)
        } else {
            None
        },
        None => None,
    }
}

/// The text of a truth value.
pub open spec fn bool_text(b: bool) -> Seq<char> {
    if b {
        seq!['t', 'r', 'u', 'e']
    } else {
        seq!['f', 'a', 'l', 's', 'e']
    }
}

/// The truth value that `s` stands for: `true` or `false`, nothing else.
pub open spec fn parse_bool(s: Seq<char>) -> Option<bool> {
    if s == bool_text(true) {
        Some(true)
    } else if s == bool_text(false) {
        Some(false)
    } else {
        None
    }
}

/// The digits of a number are digits, and stand for the number.
pub proof fn lemma_decimal(n: nat)
    ensures
        decimal(n).len() > 0,
        all_digits(decimal(n)),
        digits_value(decimal(n)) == n,
    decreases n,
{
    if n < 10 {
        let s = decimal(n);
        assert(s.drop_last() =~= Seq::<char>::empty());
        assert(digits_value(s.drop_last()) == 0);
    } else {
        lemma_decimal(n / 10);
        let s = decimal(n);
        assert(s.drop_last() =~= decimal(n / 10));
        assert(s.last() == digit_char((n % 10) as int));
    }
}

/// Reading what was written gives the number back.
pub proof fn lemma_parse_decimal(n: int, signed: bool)
    requires
        signed || n >= 0,
    ensures
        parse_int(signed_decimal(n), signed) == Some(n),
{
    let s = signed_decimal(n);
    if n < 0 {
        let d = decimal((-n) as nat);
        lemma_decimal((-n) as nat);
        assert(s[0] == '-');
        assert(s.skip(1) =~= d);
    } else {
        lemma_decimal(n as nat);
        assert(is_digit(s[0]));
    }
}

/// Reading the text of a truth value gives the value back.
pub proof fn lemma_parse_bool(b: bool)
    ensures
        parse_bool(bool_text(b)) == Some(b),
{
    assert(bool_text(true)[0] != bool_text(false)[0]);
}

/// A longer sequence of digits stands for a number that is no smaller.
pub proof fn lemma_digits_value_grows(s: Seq<char>, k: int)
    requires
        all_digits(s),
        0 <= k <= s.len(),
    ensures
        digits_value(s.take(k)) <= digits_value(s),
    decreases s.len() - k,
{
    if k < s.len() {
        lemma_digits_value_grows(s, k + 1);
        assert(s.take(k + 1).drop_last() =~= s.take(k));
        assert(is_digit(s.take(k + 1).last()));
    } else {
        assert(s.take(k) =~= s);
    }
}

/// Appends the digits of `n`.
pub fn push_decimal(out: &mut String, n: u64)
    ensures
        final(out)@ == old(out)@ + decimal(n as nat),
    decreases n,
{
    if n >= 10 {
        push_decimal(out, n / 10);
    }
    let d = n % 10;
    let c = if d == 0 {
        '0'
    } else if d == 1 {
        '1'
    } else if d == 2 {
        '2'
    } else if d == 3 {
        '3'
    } else if d == 4 {
        '4'
    } else if d == 5 {
        '5'
    } else if d == 6 {
        '6'
    } else if d == 7 {
        '7'
    } else if d == 8 {
        '8'
    } else {
        '9'
    };
    assert(c == digit_char(d as int));
    out.push(c);
    proof {
        if n >= 10 {
            assert(out@ =~= old(out)@ + decimal(n as nat));
        } else {
            assert(out@ =~= old(out)@ + decimal(n as nat));
        }
    }
}

/// Appends the decimal text of `n`.
pub fn push_signed_decimal(out: &mut String, n: i64)
    ensures
        final(out)@ == old(out)@ + signed_decimal(n as int),
{
    if n < 0 {
        out.push('-');
        let magnitude: u64 = if n == i64::MIN {
            0x8000_0000_0000_0000u64
        } else {
            (-n) as u64
        };
        push_decimal(out, magnitude);
        proof {
            assert(out@ =~= old(out)@ + signed_decimal(n as int));
        }
    } else {
        push_decimal(out, n as u64);
    }
}

/// Appends `true` or `false`.
pub fn push_bool(out: &mut String, b: bool)
    ensures
        final(out)@ == old(out)@ + bool_text(b),
{
    if b {
        out.push('t');
        out.push('r');
        out.push('u');
        out.push('e');
    } else {
        out.push('f');
        out.push('a');
        out.push('l');
        out.push('s');
        out.push('e');
    }
    proof {
        assert(out@ =~= old(out)@ + bool_text(b));
    }
}

/// The number that the digits `s` stand for, if `s` is one digit or more
/// and the number is at most `limit`.
pub fn parse_digits(s: &str, limit: u64) -> (r: Option<u64>)
    ensures
        r == (if s@.len() > 0 && all_digits(s@) && digits_value(s@) <= limit {
            Some(digits_value(s@) as u64)
        } else {
            None
        }),
{
    let mut rest = s;
    let mut value: u64 = 0;
    let mut any = false;
    let ghost mut k: int = 0;
    proof {
        assert(s@.take(0) =~= Seq::<char>::empty());
        assert(s@.skip(0) =~= s@);
    }
    loop
        invariant
            0 <= k <= s@.len(),
            rest@ == s@.skip(k),
            all_digits(s@.take(k)),
            value == digits_value(s@.take(k)),
            value <= limit,
            any == (k > 0),
        decreases s@.len() - k,
    {
        match split_first(rest) {
            None => {
                proof {
                    assert(s@.take(k) =~= s@);
                }
                return if any {
                    Some(value)
                } else {
                    None
                };
            },
            Some((c, tail)) => {
                if !(c >= '0' && c <= '9') {
                    proof {
                        assert(s@[k] == c);
                    }
                    return None;
                }
                let d = (c as u32 - 48) as u64;
                proof {
                    assert(s@[k] == c);
                    assert(s@.take(k + 1).drop_last() =~= s@.take(k));
                    assert(s@.take(k + 1).last() == c);
                    assert(all_digits(s@.take(k + 1))) by {
                        assert forall|i: int| 0 <= i < k + 1 implies is_digit(
                            #[trigger] s@.take(k + 1)[i],
                        ) by {
                            if i < k {
                                assert(s@.take(k + 1)[i] == s@.take(k)[i]);
                            }
                        }
                    }
                    assert(digits_value(s@.take(k + 1)) == value * 10 + d);
                    assert(tail@ =~= s@.skip(k + 1));
                }
                if limit < d || value > (limit - d) / 10 {
                    proof {
                        assert(value * 10 + d > limit);
                        if all_digits(s@) {
                            lemma_digits_value_grows(s@, k + 1);
                        }
                    }
                    return None;
                }
                value = value * 10 + d;
                any = true;
                rest = tail;
                proof {
                    k = k + 1;
                }
            },
        }
    }
}

/// The number that `s` stands for, if it is a number without a `-` that is
/// at most `max`.
pub fn parse_unsigned(s: &str, max: u64) -> (r: Option<u64>)
    ensures
        match parse_within(s@, false, 0, max as int) {
            Some(v) => r == Some(v as u64),
            None => r is None,
        },
{
    match split_first(s) {
        Some((c, tail)) => {
            if c == '+' {
                parse_digits(tail, max)
            } else {
                parse_digits(s, max)
            }
        },
        None => None,
    }
}

/// The number that `s` stands for, if it is a number between `min` and `max`.
pub(crate) fn parse_signed(s: &str, min: i64, max: i64) -> (r: Option<i64>)
    requires
        min < 0 <= max,
    ensures
        match parse_within(s@, true, min as int, max as int) {
            Some(v) => r == Some(v as i64),
            None => r is None,
        },
{
    match split_first(s) {
        Some((c, tail)) => {
            if c == '-' {
                let limit: u64 = if min == i64::MIN {
                    0x8000_0000_0000_0000u64
                } else {
                    (-min) as u64
                };
                match parse_digits(tail, limit) {
                    Some(m) => {
                        if m == 0x8000_0000_0000_0000u64 {
                            Some(i64::MIN)
                        } else {
                            Some(-(m as i64))
                        }
                    },
                    None => None,
                }
            } else if c == '+' {
                match parse_digits(tail, max as u64) {
                    Some(m) => Some(m as i64),
                    None => None,
                }
            } else {
                match parse_digits(s, max as u64) {
                    Some(m) => Some(m as i64),
                    None => None,
                }
            }
        },
        None => None,
    }
}

/// The truth value that `s` stands for, if it is `true` or `false`.
pub fn parse_truth(s: &str) -> (r: Option<bool>)
    ensures
        r == parse_bool(s@),
{
    proof {
        reveal_strlit("true");
        reveal_strlit("false");
        assert("true"@ =~= bool_text(true));
        assert("false"@ =~= bool_text(false));
    }
    if str_eq(s, "true") {
        Some(true)
    } else if str_eq(s, "false") {
        Some(false)
    } else {
        None
    }
}

} // verus!
