//! IEEE 754 doubles as bit patterns: their order, and conversions from and to integers.

use vstd::prelude::*;
use vstd::arithmetic::power2::*;
use crate::codec::double_is_nan;

verus! {

/// The bit pattern of one.
pub const ONE: u64 = 0x3FF0_0000_0000_0000;

/// The bit pattern of a NaN.
pub const NAN: u64 = 0x7FF8_0000_0000_0000;

/// Two to the power of 52.
pub const FRACTION_SPAN: u64 = 0x10_0000_0000_0000;

/// Two to the power of 63: the sign bit.
pub const SIGN_BIT: u64 = 0x8000_0000_0000_0000;

/// The biased exponent of a double.
pub open spec fn exponent(bits: u64) -> nat {
    ((bits % SIGN_BIT) / FRACTION_SPAN) as nat
}

/// The significand of a double: its value is that, scaled by a power of two.
pub open spec fn significand(bits: u64) -> nat {
    if exponent(bits) > 0 {
        (FRACTION_SPAN + bits % FRACTION_SPAN) as nat
    } else {
        (bits % FRACTION_SPAN) as nat
    }
}

/// The place of a double among the numbers: the two zeros share theirs.
pub open spec fn number_rank(bits: u64) -> int {
    if bits < SIGN_BIT {
        bits as int
    } else {
        SIGN_BIT - bits
    }
}

/// One double is below another; never with a NaN.
pub open spec fn double_less(a: u64, b: u64) -> bool {
    !double_is_nan(a) && !double_is_nan(b) && number_rank(a) < number_rank(b)
}

/// One double is at most another; never with a NaN.
pub open spec fn double_at_most(a: u64, b: u64) -> bool {
    !double_is_nan(a) && !double_is_nan(b) && number_rank(a) <= number_rank(b)
}

/// A double that is finite and above zero.
pub open spec fn finite_positive(bits: u64) -> bool {
    0 < bits < 0x7FF0_0000_0000_0000
}

/// Whether the bit pattern is a NaN's.
pub fn is_nan(bits: u64) -> (r: bool)
    ensures
        r == double_is_nan(bits),
{
    bits % SIGN_BIT > 0x7FF0_0000_0000_0000
}

/// Whether the bit pattern is finite.
pub fn is_finite(bits: u64) -> (r: bool)
    ensures
        r == (exponent(bits) < 2047),
{
    (bits % SIGN_BIT) / FRACTION_SPAN < 2047
}

/// Whether one double is below another.
pub fn less(a: u64, b: u64) -> (r: bool)
    ensures
        r == double_less(a, b),
{
    if is_nan(a) || is_nan(b) {
        return false;
    }
    if a < SIGN_BIT {
        b < SIGN_BIT && a < b
    } else if b < SIGN_BIT {
        a != SIGN_BIT || b != 0
    } else {
        a > b
    }
}

/// Whether one double is at most another.
pub fn at_most(a: u64, b: u64) -> (r: bool)
    ensures
        r == double_at_most(a, b),
{
    !is_nan(a) && !is_nan(b) && !less(b, a)
}

/// The whole part of a double's magnitude.
pub open spec fn whole_magnitude(bits: u64) -> nat {
    if exponent(bits) >= 1075 {
        significand(bits) * pow2((exponent(bits) - 1075) as nat)
    } else {
        significand(bits) / pow2(
            (1075 - (if exponent(bits) > 0 {
                exponent(bits) as int
            } else {
                1
            })) as nat,
        )
    }
}

/// A double truncated toward zero to a long: a NaN gives zero, what is out of range the nearest
/// long.
pub open spec fn truncated(bits: u64) -> int {
    if double_is_nan(bits) {
        0
    } else if bits < SIGN_BIT {
        if whole_magnitude(bits) > i64::MAX {
            i64::MAX as int
        } else {
            whole_magnitude(bits) as int
        }
    } else {
        if whole_magnitude(bits) > 0x8000_0000_0000_0000 {
            i64::MIN as int
        } else {
            -(whole_magnitude(bits) as int)
        }
    }
}

/// Two to the power of `k`.
fn power_of_two(k: u64) -> (r: u64)
    requires
        k < 64,
    ensures
        r == pow2(k as nat),
        r >= 1,
{
    let mut r: u64 = 1;
    let mut i: u64 = 0;
    proof {
        lemma2_to64();
        lemma2_to64_rest();
    }
    while i < k
        invariant
            i <= k < 64,
            r == pow2(i as nat),
            r >= 1,
        decreases k - i,
    {
        proof {
            lemma_pow2_unfold((i + 1) as nat);
            lemma_pow2_strictly_increases(i as nat, 63);
            lemma2_to64_rest();
        }
        r = r * 2;
        i = i + 1;
    }
    r
}

/// Truncate a double toward zero.
pub fn to_long(bits: u64) -> (r: i64)
    ensures
        r == truncated(bits),
{
    if is_nan(bits) {
        return 0;
    }
    let e: u64 = (bits % SIGN_BIT) / FRACTION_SPAN;
    let f: u64 = bits % FRACTION_SPAN;
    let negative = bits >= SIGN_BIT;
    let ghost m = significand(bits);
    if e < 1023 {
        proof {
            lemma_small_magnitude(bits);
        }
        return 0;
    }
    if e >= 1086 {
        proof {
            lemma_large_magnitude(bits);
        }
        return if negative {
            i64::MIN
        } else {
            i64::MAX
        };
    }
    let s: u64 = FRACTION_SPAN + f;
    let magnitude: u64 = if e >= 1075 {
        let p: u64 = power_of_two(e - 1075);
        proof {
            lemma2_to64();
            lemma2_to64_rest();
            if e - 1075 < 10 {
                lemma_pow2_strictly_increases((e - 1075) as nat, 10);
            }
            assert(p <= 1024);
            assert(s * p <= 0x20_0000_0000_0000 * 1024) by (nonlinear_arith)
                requires
                    s < 0x20_0000_0000_0000,
                    p <= 1024,
            ;
            assert(s * p <= 0x1F_FFFF_FFFF_FFFF * 1024) by (nonlinear_arith)
                requires
                    s <= 0x1F_FFFF_FFFF_FFFF,
                    p <= 1024,
            ;
        }
        s * p
    } else {
        let p: u64 = power_of_two(1075 - e);
        proof {
            assert(s / p <= s) by (nonlinear_arith)
                requires
                    p >= 1,
            ;
        }
        s / p
    };
    assert(magnitude == whole_magnitude(bits));
    if negative {
        -(magnitude as i64)
    } else {
        magnitude as i64
    }
}

proof fn lemma_small_magnitude(bits: u64)
    requires
        exponent(bits) < 1023,
    ensures
        whole_magnitude(bits) == 0,
{
    let m = significand(bits);
    let k = (1075 - (if exponent(bits) > 0 { exponent(bits) as int } else { 1 })) as nat;
    lemma2_to64_rest();
    assert(pow2(53) == 0x20_0000_0000_0000);
    if k > 53 {
        lemma_pow2_strictly_increases(53, k);
    }
    assert(m < pow2(k));
    assert(m / pow2(k) == 0) by (nonlinear_arith)
        requires
            0 <= m < pow2(k),
    ;
}

proof fn lemma_large_magnitude(bits: u64)
    requires
        exponent(bits) >= 1086,
    ensures
        whole_magnitude(bits) >= 0x8000_0000_0000_0000,
        bits >= SIGN_BIT ==> truncated(bits) == i64::MIN || double_is_nan(bits),
{
    let m = significand(bits);
    let k = (exponent(bits) - 1075) as nat;
    lemma2_to64();
    if k > 11 {
        lemma_pow2_strictly_increases(11, k);
    }
    assert(pow2(k) >= 2048);
    assert(m * pow2(k) >= 0x10_0000_0000_0000 * 2048) by (nonlinear_arith)
        requires
            m >= 0x10_0000_0000_0000,
            pow2(k) >= 2048,
    ;
}

// ---------------------------------------------------------------------------
// From integers
// ---------------------------------------------------------------------------

/// `m` lies between two to the power of `t` and the next power.
pub open spec fn top_bit(m: nat, t: nat) -> bool {
    pow2(t) <= m < pow2(t + 1)
}

/// `m / d` rounded to the nearest integer, halves to the even one.
pub open spec fn rounded_quotient(m: nat, d: nat) -> nat
    recommends
        d > 0,
{
    let q = m / d;
    let r = m % d;
    if 2 * r < d || (2 * r == d && q % 2 == 0) {
        q
    } else {
        q + 1
    }
}

/// The significand and exponent of a positive integer with top bit `t`, rounded to 53 bits.
pub open spec fn packed(m: nat, t: nat) -> nat {
    (1022 + t) * (FRACTION_SPAN as nat) + if t <= 52 {
        m * pow2((52 - t) as nat)
    } else {
        rounded_quotient(m, pow2((t - 52) as nat))
    }
}

/// `bits` is the double nearest to `m`, halves to the even one.
pub open spec fn is_double_of(bits: nat, m: nat) -> bool {
    if m == 0 {
        bits == 0
    } else {
        exists|t: nat| #[trigger] top_bit(m, t) && bits == packed(m, t)
    }
}

/// `bits` is the double nearest to the long `n`.
pub open spec fn is_double_of_long(bits: u64, n: int) -> bool {
    if n < 0 {
        bits >= SIGN_BIT && is_double_of((bits - SIGN_BIT) as nat, (-n) as nat)
    } else {
        is_double_of(bits as nat, n as nat)
    }
}

/// The top bit of `m`, and the power of two there.
fn find_top(m: u64) -> (r: (u64, u64))
    requires
        m > 0,
    ensures
        r.0 < 64,
        r.1 == pow2(r.0 as nat),
        top_bit(m as nat, r.0 as nat),
{
    let mut t: u64 = 0;
    let mut p: u64 = 1;
    proof {
        lemma2_to64();
    }
    while t < 63 && m / 2 >= p
        invariant
            t <= 63,
            p == pow2(t as nat),
            m >= p >= 1,
        decreases 63 - t,
    {
        proof {
            lemma_pow2_unfold((t + 1) as nat);
        }
        p = p * 2;
        t = t + 1;
    }
    proof {
        lemma_pow2_unfold((t + 1) as nat);
        if t == 63 {
            lemma2_to64_rest();
        }
    }
    (t, p)
}

/// The double nearest to `m`.
pub fn of_magnitude(m: u64) -> (r: u64)
    ensures
        is_double_of(r as nat, m as nat),
        r < SIGN_BIT,
        m < 0x20_0000_0000_0000 && m > 0 ==> r >= ONE,
{
    if m == 0 {
        return 0;
    }
    let (t, top) = find_top(m);
    let ghost goal = packed(m as nat, t as nat);
    if t <= 52 {
        let p: u64 = power_of_two(52 - t);
        proof {
            lemma_pow2_adds(t as nat, (52 - t) as nat);
            lemma_pow2_adds((t + 1) as nat, (52 - t) as nat);
            lemma2_to64_rest();
            assert(m * p < 0x20_0000_0000_0000 && m * p >= 0x10_0000_0000_0000) by (nonlinear_arith)
                requires
                    pow2(t as nat) <= m < pow2((t + 1) as nat),
                    p == pow2((52 - t) as nat),
                    p >= 1,
                    pow2(t as nat) * pow2((52 - t) as nat) == 0x10_0000_0000_0000,
                    pow2((t + 1) as nat) * pow2((52 - t) as nat) == 0x20_0000_0000_0000,
            ;
        }
        let r: u64 = (1022 + t) * FRACTION_SPAN + m * p;
        assert(r == goal);
        r
    } else {
        let d: u64 = power_of_two(t - 52);
        let q: u64 = m / d;
        let rest: u64 = m % d;
        proof {
            lemma_pow2_adds((t - 52) as nat, 52);
            lemma_pow2_adds((t - 52) as nat, 53);
            lemma2_to64_rest();
            lemma2_to64();
            assert(q < 0x20_0000_0000_0000) by (nonlinear_arith)
                requires
                    m < pow2((t + 1) as nat),
                    d == pow2((t - 52) as nat),
                    d >= 1,
                    q == m / d,
                    pow2((t - 52) as nat) * 0x20_0000_0000_0000 == pow2((t + 1) as nat),
            ;
            if t - 52 < 11 {
                lemma_pow2_strictly_increases((t - 52) as nat, 11);
            }
            assert(d <= 2048);
            assert(rest < d);
        }
        let up: u64 = if 2 * rest < d || (2 * rest == d && q % 2 == 0) {
            0
        } else {
            1
        };
        let r: u64 = (1022 + t) * FRACTION_SPAN + q + up;
        assert(r == goal);
        proof {
            lemma_pow2_strictly_increases_or_equal(53, t as nat);
        }
        r
    }
}

proof fn lemma_pow2_strictly_increases_or_equal(a: nat, b: nat)
    requires
        a <= b,
    ensures
        pow2(a) <= pow2(b),
        a == 53 ==> pow2(a) == 0x20_0000_0000_0000,
{
    lemma2_to64_rest();
    if a < b {
        lemma_pow2_strictly_increases(a, b);
    }
}

/// The double nearest to a long.
pub fn of_long(n: i64) -> (r: u64)
    ensures
        is_double_of_long(r, n as int),
{
    if n >= 0 {
        of_magnitude(n as u64)
    } else {
        let m: u64 = (-(n + 1)) as u64 + 1;
        SIGN_BIT + of_magnitude(m)
    }
}

/// An integer has one nearest double.
pub proof fn law_one_nearest_double(a: nat, b: nat, m: nat)
    requires
        is_double_of(a, m),
        is_double_of(b, m),
    ensures
        a == b,
{
    if m > 0 {
        let t = choose|t: nat| #[trigger] top_bit(m, t) && a == packed(m, t);
        let u = choose|u: nat| #[trigger] top_bit(m, u) && b == packed(m, u);
        if t < u {
            if t + 1 < u {
                lemma_pow2_strictly_increases(t + 1, u);
            }
        } else if u < t {
            if u + 1 < t {
                lemma_pow2_strictly_increases(u + 1, t);
            }
        }
    }
}

/// A magnitude below two to the power of 53 survives the way to a double and back.
pub proof fn law_small_magnitudes_survive(bits: u64, m: nat)
    requires
        m < 0x20_0000_0000_0000,
        is_double_of(bits as nat, m),
    ensures
        truncated(bits) == m,
{
    lemma2_to64();
    lemma2_to64_rest();
    if m == 0 {
        lemma_small_magnitude(bits);
    } else {
        let t = choose|t: nat| #[trigger] top_bit(m, t) && bits == packed(m, t);
        if t > 52 {
            lemma_pow2_strictly_increases_or_equal(53, t);
        }
        let p = pow2((52 - t) as nat);
        lemma_pow2_pos((52 - t) as nat);
        lemma_pow2_adds(t, (52 - t) as nat);
        lemma_pow2_adds(t + 1, (52 - t) as nat);
        assert(m * p < 0x20_0000_0000_0000 && m * p >= 0x10_0000_0000_0000) by (nonlinear_arith)
            requires
                pow2(t) <= m < pow2(t + 1),
                p >= 1,
                p == pow2((52 - t) as nat),
                pow2(t) * pow2((52 - t) as nat) == 0x10_0000_0000_0000,
                pow2(t + 1) * pow2((52 - t) as nat) == 0x20_0000_0000_0000,
        ;
        let f = m * p - 0x10_0000_0000_0000;
        assert(bits == (1023 + t) * 0x10_0000_0000_0000 + f);
        assert(bits < SIGN_BIT);
        assert(exponent(bits) == 1023 + t && bits % FRACTION_SPAN == f) by (nonlinear_arith)
            requires
                bits == (1023 + t) * 0x10_0000_0000_0000 + f,
                0 <= f < 0x10_0000_0000_0000,
                bits < SIGN_BIT,
                t <= 52,
        ;
        assert(significand(bits) == m * p);
        if t < 52 {
            assert((m * p) / p == m) by (nonlinear_arith)
                requires
                    p >= 1,
            ;
            assert(1075 - exponent(bits) == 52 - t);
        } else {
            assert(p == 1);
            assert(m * p * pow2(0) == m) by (nonlinear_arith)
                requires
                    p == 1,
                    pow2(0) == 1,
            ;
        }
        assert(whole_magnitude(bits) == m);
        assert(!double_is_nan(bits));
    }
}

} // verus!
