//! Integers read from text, as `str::parse` reads them.

use vstd::prelude::*;
use crate::decimal::{digits, int_text};
use crate::text::chars_of;

verus! {

/// The character is an ASCII digit.
pub open spec fn is_digit(c: char) -> bool {
    '0' <= c <= '9'
}

/// Every character is an ASCII digit.
pub open spec fn only_digits(s: Seq<char>) -> bool {
    forall|i: int| 0 <= i < s.len() ==> is_digit(#[trigger] s[i])
}

/// The number that digits write.
pub open spec fn digit_value(s: Seq<char>) -> nat
    decreases s.len(),
{
    if s.len() == 0 {
        0
    } else {
        digit_value(s.drop_last()) * 10 + (s.last() as nat - '0' as nat) as nat
    }
}

/// The number that a text writes: digits, up to `max`.
pub open spec fn digits_number(s: Seq<char>, max: nat) -> Option<nat> {
    if s.len() > 0 && only_digits(s) && digit_value(s) <= max {
        Some(digit_value(s))
    } else {
        None
    }
}

/// An unsigned integer as `str::parse` reads it: digits, with a plus sign or without.
pub open spec fn unsigned_number(s: Seq<char>, max: nat) -> Option<nat> {
    if s.len() > 0 && s[0] == '+' {
        digits_number(s.skip(1), max)
    } else {
        digits_number(s, max)
    }
}

/// A 64-bit signed integer as `str::parse` reads it: digits, with a sign or without.
pub open spec fn signed_number(s: Seq<char>) -> Option<int> {
    if s.len() > 0 && s[0] == '-' {
        match digits_number(s.skip(1), 0x8000_0000_0000_0000) {
            Some(n) => Some(-(n as int)),
            None => None,
        }
    } else {
        match unsigned_number(s, 0x7FFF_FFFF_FFFF_FFFF) {
            Some(n) => Some(n as int),
            None => None,
        }
    }
}

proof fn lemma_digit_value_grows(s: Seq<char>, k: int)
    requires
        0 <= k <= s.len(),
        only_digits(s),
    ensures
        digit_value(s.take(k)) <= digit_value(s),
    decreases s.len() - k,
{
    if k < s.len() {
        let longer = s.take(k + 1);
        assert(longer.drop_last() =~= s.take(k));
        lemma_digit_value_grows(s, k + 1);
    } else {
        assert(s.take(k) =~= s);
    }
}

fn digit_number(c: char) -> (r: u64)
    requires
        is_digit(c),
    ensures
        r == c as nat - '0' as nat,
        r <= 9,
{
    (c as u64) - ('0' as u64)
}

/// The number that the characters from `from` on write: digits, up to `max`.
fn read_number(s: &Vec<char>, from: usize, max: u64) -> (r: Option<u64>)
    requires
        from <= s@.len(),
    ensures
        (match r {
            Some(n) => Some(n as nat),
            None => None,
        }) == digits_number(s@.skip(from as int), max as nat),
{
    let ghost rest = s@.skip(from as int);
    if from == s.len() {
        return None;
    }
    let mut n: u64 = 0;
    let mut i: usize = from;
    assert(rest.take(0) =~= Seq::empty());
    while i < s.len()
        invariant
            from <= i <= s@.len(),
            rest == s@.skip(from as int),
            rest.len() > 0,
            only_digits(rest.take(i - from)),
            n == digit_value(rest.take(i - from)),
            n <= max,
        decreases s.len() - i,
    {
        let c: char = s[i];
        assert(rest[i - from] == c);
        if !('0' <= c && c <= '9') {
            assert(!only_digits(rest));
            return None;
        }
        let d: u64 = digit_number(c);
        proof {
            let longer = rest.take(i - from + 1);
            assert(longer.drop_last() =~= rest.take(i - from));
            assert(longer.last() == c);
            assert(digit_value(longer) == n * 10 + d);
            if only_digits(rest) {
                lemma_digit_value_grows(rest, i - from + 1);
            }
        }
        if n > (max - (if d <= max { d } else { max })) / 10 || d > max {
            assert(n * 10 + d > max) by {
                if d <= max {
                    assert(n > (max - d) / 10);
                }
            }
            return None;
        }
        n = n * 10 + d;
        i = i + 1;
        assert(only_digits(rest.take(i - from))) by {
            assert forall|k: int| 0 <= k < i - from implies is_digit(#[trigger] rest.take(i - from)[k]) by {
                if k < i - from - 1 {
                    assert(rest.take(i - from - 1)[k] == rest[k]);
                }
            }
        }
    }
    assert(rest.take(i - from) =~= rest);
    Some(n)
}

/// Read an unsigned integer that fits a machine word.
pub fn parse_usize(s: &Vec<char>, from: usize) -> (r: Option<usize>)
    requires
        from <= s@.len(),
    ensures
        (match r {
            Some(n) => Some(n as nat),
            None => None,
        }) == unsigned_number(s@.skip(from as int), usize::MAX as nat),
{
    let ghost rest = s@.skip(from as int);
    let read = if from < s.len() && s[from] == '+' {
        assert(rest.skip(1) =~= s@.skip(from + 1));
        read_number(s, from + 1, usize::MAX as u64)
    } else {
        read_number(s, from, usize::MAX as u64)
    };
    match read {
        Some(n) => Some(n as usize),
        None => None,
    }
}

/// Read a 64-bit signed integer.
pub fn parse_i64(text: &str) -> (r: Option<i64>)
    ensures
        (match r {
            Some(n) => Some(n as int),
            None => None,
        }) == signed_number(text@),
{
    let s = chars_of(text);
    assert(s@.skip(0) =~= s@);
    if s.len() > 0 && s[0] == '-' {
        match read_number(&s, 1, 0x8000_0000_0000_0000) {
            Some(n) => if n == 0x8000_0000_0000_0000 {
                Some(i64::MIN)
            } else {
                Some(-(n as i64))
            },
            None => None,
        }
    } else if s.len() > 0 && s[0] == '+' {
        match read_number(&s, 1, 0x7FFF_FFFF_FFFF_FFFF) {
            Some(n) => Some(n as i64),
            None => None,
        }
    } else {
        match read_number(&s, 0, 0x7FFF_FFFF_FFFF_FFFF) {
            Some(n) => Some(n as i64),
            None => None,
        }
    }
}

proof fn lemma_digits_read(n: nat)
    ensures
        only_digits(digits(n)),
        digits(n).len() > 0,
        digit_value(digits(n)) == n,
    decreases n,
{
    let s = digits(n);
    if n < 10 {
        assert(s.drop_last() =~= Seq::empty());
        reveal_with_fuel(digit_value, 2);
    } else {
        lemma_digits_read(n / 10);
        assert(s.drop_last() =~= digits(n / 10));
        assert forall|i: int| 0 <= i < s.len() implies is_digit(#[trigger] s[i]) by {
            if i < s.len() - 1 {
                assert(s[i] == digits(n / 10)[i]);
            }
        }
    }
}

/// The digits of a number read as it, with a plus sign or without.
pub proof fn law_unsigned_reads_back(n: nat, max: nat)
    requires
        n <= max,
    ensures
        unsigned_number(digits(n), max) == Some(n),
        unsigned_number(seq!['+'] + digits(n), max) == Some(n),
{
    lemma_digits_read(n);
    assert(is_digit(digits(n)[0]));
    assert((seq!['+'] + digits(n)).skip(1) =~= digits(n));
}

/// The text of a long reads as it.
pub proof fn law_long_reads_back(n: i64)
    ensures
        signed_number(int_text(n as int)) == Some(n as int),
{
    if n >= 0 {
        lemma_digits_read(n as nat);
        assert(is_digit(digits(n as nat)[0]));
        law_unsigned_reads_back(n as nat, 0x7FFF_FFFF_FFFF_FFFF);
    } else {
        let m = (-n) as nat;
        lemma_digits_read(m);
        assert(int_text(n as int).skip(1) =~= digits(m));
    }
}

/// A text with anything but digits behind its sign, or without a digit, is no number.
pub proof fn law_no_other_text_is_a_number(s: Seq<char>, i: int)
    requires
        s.len() == 0 || (0 <= i < s.len() && !('0' <= s[i] <= '9') && (i > 0 || (s[0] != '+' && s[0]
            != '-'))),
    ensures
        signed_number(s) is None,
{
    if s.len() > 0 {
        if i > 0 {
            assert(s.skip(1)[i - 1] == s[i]);
        }
        if s[0] == '-' || s[0] == '+' {
            assert(!is_digit(s.skip(1)[i - 1]));
        } else {
            assert(!is_digit(s[i]));
        }
    }
}

} // verus!
