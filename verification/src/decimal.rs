//! Decimal digits: writing integers, zero-padding, and reading them back.

use vstd::prelude::*;

verus! {

/// The character of a digit.
pub open spec fn digit_char(d: int) -> char {
    if d == 0 {
        '0'
    } else if d == 1 {
        '1'
    } else if d == 2 {
        '2'
    } else if d == 3 {
        '3'
    } else if d == 4 {
        '4'
    } else if d == 5 {
        '5'
    } else if d == 6 {
        '6'
    } else if d == 7 {
        '7'
    } else if d == 8 {
        '8'
    } else {
        '9'
    }
}

/// The decimal digits of `n`, without leading zeros.
pub open spec fn digits(n: nat) -> Seq<char>
    decreases n,
{
    if n < 10 {
        seq![digit_char(n as int)]
    } else {
        digits(n / 10).push(digit_char((n % 10) as int))
    }
}

/// `k` zeros.
pub open spec fn zeros(k: nat) -> Seq<char> {
    Seq::new(k, |i: int| '0')
}

/// The digits of `n` with zeros in front up to a width.
pub open spec fn padded(n: nat, width: nat) -> Seq<char> {
    if digits(n).len() >= width {
        digits(n)
    } else {
        zeros((width - digits(n).len()) as nat) + digits(n)
    }
}

/// An integer with zeros in front of its digits up to a width, the sign included.
pub open spec fn padded_int(n: int, width: nat) -> Seq<char> {
    if n >= 0 {
        padded(n as nat, width)
    } else {
        seq!['-'] + padded((-n) as nat, if width > 0 {
            (width - 1) as nat
        } else {
            0
        })
    }
}

/// An integer as text.
pub open spec fn int_text(n: int) -> Seq<char> {
    padded_int(n, 0)
}

/// A decimal digit as a byte.
pub open spec fn is_digit_byte(b: u8) -> bool {
    0x30 <= b <= 0x39
}

/// All bytes are decimal digits.
pub open spec fn all_digits(s: Seq<u8>) -> bool {
    forall|i: int| 0 <= i < s.len() ==> is_digit_byte(#[trigger] s[i])
}

/// The number that decimal digits write.
pub open spec fn digits_value(s: Seq<u8>) -> nat
    decreases s.len(),
{
    if s.len() == 0 {
        0
    } else {
        10 * digits_value(s.drop_last()) + (s.last() - 0x30) as nat
    }
}

/// The bytes of ASCII characters.
pub open spec fn ascii_bytes(s: Seq<char>) -> Seq<u8> {
    Seq::new(s.len(), |i: int| s[i] as u8)
}

/// 10 to the power `k`.
pub open spec fn pow10(k: nat) -> nat
    decreases k,
{
    if k == 0 {
        1
    } else {
        10 * pow10((k - 1) as nat)
    }
}

/// A number below 10 to the power `k` has at most `k` digits, and at least one.
pub proof fn lemma_digits_len(n: nat, k: nat)
    requires
        n < pow10(k),
        k >= 1,
    ensures
        1 <= digits(n).len() <= k,
    decreases k,
{
    if n >= 10 {
        if k == 1 {
            assert(pow10(1) == 10) by {
                reveal_with_fuel(pow10, 2);
            }
        } else {
            lemma_digits_len(n / 10, (k - 1) as nat);
        }
    }
}

/// Digits are digits, and read as the number.
pub proof fn law_digits_round_trip(n: nat)
    ensures
        all_digits(ascii_bytes(digits(n))),
        digits_value(ascii_bytes(digits(n))) == n,
        digits(n).len() >= 1,
    decreases n,
{
    let s = ascii_bytes(digits(n));
    if n < 10 {
        assert(s.drop_last() =~= Seq::empty());
        assert(s.last() == digit_char(n as int) as u8);
        reveal_with_fuel(digits_value, 2);
    } else {
        law_digits_round_trip(n / 10);
        let init = ascii_bytes(digits(n / 10));
        assert(s.drop_last() =~= init);
        assert(s.last() == digit_char((n % 10) as int) as u8);
        assert forall|i: int| 0 <= i < s.len() implies is_digit_byte(#[trigger] s[i]) by {
            if i < init.len() {
                assert(s[i] == init[i]);
            } else {
                assert(s[i] == digit_char((n % 10) as int) as u8);
            }
        }
    }
}

/// Digits are ASCII.
pub proof fn lemma_digits_ascii(n: nat)
    ensures
        vstd::utf8::is_ascii_chars(digits(n)),
    decreases n,
{
    if n >= 10 {
        lemma_digits_ascii(n / 10);
    }
}

/// Padded digits are ASCII.
pub proof fn lemma_padded_ascii(n: nat, width: nat)
    ensures
        vstd::utf8::is_ascii_chars(padded(n, width)),
{
    lemma_digits_ascii(n);
}

/// Zeros in front change no value.
pub proof fn law_padded_round_trip(n: nat, width: nat)
    ensures
        all_digits(ascii_bytes(padded(n, width))),
        digits_value(ascii_bytes(padded(n, width))) == n,
        padded(n, width).len() >= width,
        n < pow10(width) && width >= 1 ==> padded(n, width).len() == width,
{
    law_digits_round_trip(n);
    if n < pow10(width) && width >= 1 {
        lemma_digits_len(n, width);
    }
    if digits(n).len() < width {
        let k = (width - digits(n).len()) as nat;
        let s = ascii_bytes(padded(n, width));
        let d = ascii_bytes(digits(n));
        assert(s =~= ascii_bytes(zeros(k)) + d);
        lemma_zeros_value(k, d);
        assert forall|i: int| 0 <= i < s.len() implies is_digit_byte(#[trigger] s[i]) by {
            if i >= k {
                assert(s[i] == d[i - k]);
            } else {
                assert(s[i] == '0' as u8);
            }
        }
    }
}

proof fn lemma_zeros_value(k: nat, d: Seq<u8>)
    ensures
        digits_value(ascii_bytes(zeros(k)) + d) == digits_value(d),
    decreases d.len(), k,
{
    let z = ascii_bytes(zeros(k));
    if d.len() > 0 {
        lemma_zeros_value(k, d.drop_last());
        assert((z + d).drop_last() =~= z + d.drop_last());
        assert((z + d).last() == d.last());
    } else if k > 0 {
        let less = ascii_bytes(zeros((k - 1) as nat));
        lemma_zeros_value((k - 1) as nat, d);
        assert((z + d).drop_last() =~= less + d);
        assert((z + d).last() == '0' as u8);
    } else {
        assert(z + d =~= d);
    }
}

/// The character of a digit.
fn digit_of(d: u64) -> (c: char)
    requires
        d < 10,
    ensures
        c == digit_char(d as int),
{
    if d == 0 {
        '0'
    } else if d == 1 {
        '1'
    } else if d == 2 {
        '2'
    } else if d == 3 {
        '3'
    } else if d == 4 {
        '4'
    } else if d == 5 {
        '5'
    } else if d == 6 {
        '6'
    } else if d == 7 {
        '7'
    } else if d == 8 {
        '8'
    } else {
        '9'
    }
}

/// Append the digits of `n`.
pub fn push_digits(out: &mut String, n: u64)
    ensures
        final(out)@ == old(out)@ + digits(n as nat),
    decreases n,
{
    if n >= 10 {
        push_digits(out, n / 10);
    }
    out.push(digit_of(n % 10));
    assert(out@ =~= old(out)@ + digits(n as nat));
}

/// How many digits `n` has.
fn count_digits(n: u64) -> (k: usize)
    ensures
        k as nat == digits(n as nat).len(),
        k <= 20,
{
    let mut m: u64 = n;
    let mut k: usize = 1;
    proof {
        reveal_with_fuel(pow10, 21);
        lemma_digits_len(n as nat, 20);
    }
    while m >= 10
        invariant
            1 <= k,
            k - 1 + digits(m as nat).len() == digits(n as nat).len(),
            digits(n as nat).len() <= 20,
        decreases m,
    {
        proof {
            law_digits_round_trip((m / 10) as nat);
        }
        m = m / 10;
        k = k + 1;
    }
    k
}

/// Append `n` with zeros in front up to a width.
pub fn push_padded(out: &mut String, n: u64, width: usize)
    ensures
        final(out)@ == old(out)@ + padded(n as nat, width as nat),
{
    let ghost start = out@;
    let have = count_digits(n);
    let mut k: usize = have;
    assert(out@ =~= start + zeros(0));
    while k < width
        invariant
            have <= k,
            k <= width || k == have,
            out@ == start + zeros((k - have) as nat),
        decreases width - k,
    {
        out.push('0');
        k = k + 1;
        assert(out@ =~= start + zeros((k - have) as nat));
    }
    push_digits(out, n);
    assert(out@ =~= start + padded(n as nat, width as nat));
}

/// The magnitude of an integer.
fn magnitude(n: i64) -> (m: u64)
    ensures
        m as int == if n >= 0 {
            n as int
        } else {
            -n
        },
{
    if n >= 0 {
        n as u64
    } else {
        (-(n as i128)) as u64
    }
}

/// Append an integer with zeros in front up to a width, the sign included.
pub fn push_padded_int(out: &mut String, n: i64, width: usize)
    ensures
        final(out)@ == old(out)@ + padded_int(n as int, width as nat),
{
    let ghost start = out@;
    if n >= 0 {
        push_padded(out, n as u64, width);
    } else {
        out.push('-');
        push_padded(out, magnitude(n), if width > 0 {
            width - 1
        } else {
            0
        });
        assert(out@ =~= start + padded_int(n as int, width as nat));
    }
}

/// Append an integer.
pub fn push_int(out: &mut String, n: i64)
    ensures
        final(out)@ == old(out)@ + int_text(n as int),
{
    push_padded_int(out, n, 0);
}

/// An integer as text.
pub fn int_string(n: i64) -> (r: String)
    ensures
        r@ == int_text(n as int),
{
    let mut r = String::new();
    push_int(&mut r, n);
    assert(r@ =~= int_text(n as int));
    r
}

/// An unsigned integer as text.
pub fn uint_string(n: u64) -> (r: String)
    ensures
        r@ == digits(n as nat),
{
    let mut r = String::new();
    push_digits(&mut r, n);
    assert(r@ =~= digits(n as nat));
    r
}

/// The number that the digits of `s` from `from` up to `to` write, at most nine of them; `None`
/// where one is no digit or there is none.
pub fn read_digits(s: &[u8], from: usize, to: usize) -> (r: Option<u64>)
    requires
        from <= to <= s.len(),
        to - from <= 9,
    ensures
        match r {
            Some(n) => from < to && all_digits(s@.subrange(from as int, to as int)) && n as nat
                == digits_value(s@.subrange(from as int, to as int)) && n < pow10(
                (to - from) as nat,
            ),
            None => from == to || !all_digits(s@.subrange(from as int, to as int)),
        },
{
    if from == to {
        return None;
    }
    let mut n: u64 = 0;
    let mut i: usize = from;
    while i < to
        invariant
            from <= i <= to <= s.len(),
            to - from <= 9,
            all_digits(s@.subrange(from as int, i as int)),
            n as nat == digits_value(s@.subrange(from as int, i as int)),
            n < pow10((i - from) as nat),
        decreases to - i,
    {
        let ghost part = s@.subrange(from as int, i + 1);
        proof {
            assert(part.drop_last() =~= s@.subrange(from as int, i as int));
            assert(part.last() == s@[i as int]);
            reveal_with_fuel(pow10, 10);
        }
        let b = s[i];
        if b < 0x30 || b > 0x39 {
            assert(!is_digit_byte(s@.subrange(from as int, to as int)[i - from]));
            return None;
        }
        n = n * 10 + (b - 0x30) as u64;
        proof {
            assert forall|j: int| 0 <= j < part.len() implies is_digit_byte(#[trigger] part[j]) by {
                if j < i - from {
                    assert(part[j] == s@.subrange(from as int, i as int)[j]);
                } else {
                    assert(part[j] == b);
                }
            }
        }
        i = i + 1;
    }
    Some(n)
}

} // verus!
