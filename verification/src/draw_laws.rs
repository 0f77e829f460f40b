//! Laws of random draws: their formulas, and that bulk fills are draws one after the other.

use vstd::prelude::*;
use crate::float_math::{
    gives_double, is_lognormal, is_normal, is_uniform, normal_steps, uniform_steps,
};
use crate::float_math::{FloatOp, NormalSteps};
use crate::float_math::lemma_advanced_twice;
use crate::num::{is_drawn, Draw};
use crate::rng::{advanced, drawn, is_unit_double, stepped};
use crate::value::Val;

verus! {

/// The arithmetic computes a function.
pub open spec fn computes<F: Fn(FloatOp, u64, u64) -> u64>(
    math: F,
    f: spec_fn(FloatOp, u64, u64) -> u64,
) -> bool {
    forall|op: FloatOp, a: u64, b: u64, r: u64| #[trigger]
        gives_double(math, op, a, b, r) ==> r == f(op, a, b)
}

/// A uniform draw is `lo + (hi - lo) * u`, where `u` is the unit double of one draw.
pub proof fn law_uniform_formula<F: Fn(FloatOp, u64, u64) -> u64>(
    math: F,
    f: spec_fn(FloatOp, u64, u64) -> u64,
    state: u64,
    lo: u64,
    hi: u64,
    r: u64,
)
    requires
        computes(math, f),
        is_uniform(math, state, lo, hi, r),
    ensures
        exists|u: u64| #[trigger]
            is_unit_double(u, (drawn(state) >> 11) as nat) && r == f(
                FloatOp::Plus,
                lo,
                f(FloatOp::Times, f(FloatOp::Minus, hi, lo), u),
            ),
{
    let (u, span, part) = choose|u: u64, span: u64, part: u64|
        is_unit_double(u, (drawn(state) >> 11) as nat) && #[trigger] uniform_steps(
            math,
            lo,
            hi,
            u,
            span,
            part,
            r,
        );
    assert(is_unit_double(u, (drawn(state) >> 11) as nat));
    assert(gives_double(math, FloatOp::Minus, hi, lo, span));
    assert(gives_double(math, FloatOp::Times, span, u, part));
    assert(gives_double(math, FloatOp::Plus, lo, part, r));
}

/// `mu + sigma * sqrt(-2 ln(1 - u1)) * cos(2 pi u2)`.
pub open spec fn box_muller(
    f: spec_fn(FloatOp, u64, u64) -> u64,
    mu: u64,
    sigma: u64,
    u1: u64,
    u2: u64,
) -> u64 {
    let one = 0x3FF0_0000_0000_0000u64;
    let minus_two = 0xC000_0000_0000_0000u64;
    let two_pi = 0x4019_21FB_5444_2D18u64;
    let log = f(FloatOp::Ln, f(FloatOp::Minus, one, u1), 0);
    let radius = f(FloatOp::Sqrt, f(FloatOp::Times, minus_two, log), 0);
    let cosine = f(FloatOp::Cos, f(FloatOp::Times, two_pi, u2), 0);
    f(FloatOp::Plus, mu, f(FloatOp::Times, f(FloatOp::Times, sigma, radius), cosine))
}

/// `r` is the formula's value for the unit doubles of two draws in a row.
pub open spec fn from_two_draws(
    f: spec_fn(FloatOp, u64, u64) -> u64,
    state: u64,
    mu: u64,
    sigma: u64,
    r: u64,
) -> bool {
    exists|u1: u64, u2: u64| #[trigger]
        is_unit_double(u1, (drawn(state) >> 11) as nat) && #[trigger] is_unit_double(
            u2,
            (drawn(stepped(state)) >> 11) as nat,
        ) && r == box_muller(f, mu, sigma, u1, u2)
}

/// A normal draw follows the formula of Box and Muller on two draws; a lognormal one is the
/// exponential of it.
pub proof fn law_normal_formula<F: Fn(FloatOp, u64, u64) -> u64>(
    math: F,
    f: spec_fn(FloatOp, u64, u64) -> u64,
    state: u64,
    mu: u64,
    sigma: u64,
    r: u64,
)
    requires
        computes(math, f),
    ensures
        is_normal(math, state, mu, sigma, r) ==> from_two_draws(f, state, mu, sigma, r),
        is_lognormal(math, state, mu, sigma, r) ==> exists|n: u64| #[trigger]
            from_two_draws(f, state, mu, sigma, n) && r == f(FloatOp::Exp, n, 0),
{
    if is_normal(math, state, mu, sigma, r) {
        lemma_normal(math, f, state, mu, sigma, r);
    }
    if is_lognormal(math, state, mu, sigma, r) {
        let n = choose|n: u64|
            #[trigger] is_normal(math, state, mu, sigma, n) && gives_double(
                math,
                FloatOp::Exp,
                n,
                0,
                r,
            );
        lemma_normal(math, f, state, mu, sigma, n);
        assert(from_two_draws(f, state, mu, sigma, n));
    }
}

proof fn lemma_normal<F: Fn(FloatOp, u64, u64) -> u64>(
    math: F,
    f: spec_fn(FloatOp, u64, u64) -> u64,
    state: u64,
    mu: u64,
    sigma: u64,
    r: u64,
)
    requires
        computes(math, f),
        is_normal(math, state, mu, sigma, r),
    ensures
        from_two_draws(f, state, mu, sigma, r),
{
    let s = choose|s: NormalSteps|
        is_unit_double(s.u1, (drawn(state) >> 11) as nat) && is_unit_double(
            s.u2,
            (drawn(stepped(state)) >> 11) as nat,
        ) && #[trigger] normal_steps(math, mu, sigma, s, r);
    let one = 0x3FF0_0000_0000_0000u64;
    let minus_two = 0xC000_0000_0000_0000u64;
    let two_pi = 0x4019_21FB_5444_2D18u64;
    assert(gives_double(math, FloatOp::Minus, one, s.u1, s.rest));
    assert(gives_double(math, FloatOp::Times, minus_two, s.log, s.minus_two_log));
    assert(gives_double(math, FloatOp::Times, two_pi, s.u2, s.angle));
    assert(is_unit_double(s.u1, (drawn(state) >> 11) as nat));
    assert(is_unit_double(s.u2, (drawn(stepped(state)) >> 11) as nat));
    assert(r == box_muller(f, mu, sigma, s.u1, s.u2));
}

/// Bulk fills are single draws one after the other: each element is what the single draw gives from
/// the state that the ones before it leave.
pub proof fn law_fills_are_draws<F: Fn(FloatOp, u64, u64) -> u64>(
    math: F,
    state: u64,
    n: usize,
    a: u64,
    b: u64,
    v: Val,
    after: u64,
    i: int,
)
    requires
        0 <= i < n,
    ensures
        is_drawn(math, Draw::FillNormal { n, mu: a, sigma: b }, state, Some(v), after) ==> {
            &&& v matches Val::DoubleArray(out) && out.len() == n && is_drawn(
                math,
                Draw::Normal { mu: a, sigma: b },
                advanced(state, (2 * i) as nat),
                Some(Val::Double(out[i])),
                advanced(state, (2 * i + 2) as nat),
            )
            &&& after == advanced(state, (2 * n) as nat)
        },
        is_drawn(math, Draw::FillLognormal { n, mu: a, sigma: b }, state, Some(v), after) ==> {
            &&& v matches Val::DoubleArray(out) && out.len() == n && is_drawn(
                math,
                Draw::Lognormal { mu: a, sigma: b },
                advanced(state, (2 * i) as nat),
                Some(Val::Double(out[i])),
                advanced(state, (2 * i + 2) as nat),
            )
            &&& after == advanced(state, (2 * n) as nat)
        },
        is_drawn(math, Draw::FillUniform { n, lo: a, hi: b }, state, Some(v), after) ==> {
            &&& v matches Val::DoubleArray(out) && out.len() == n && is_drawn(
                math,
                Draw::Uniform { lo: a, hi: b },
                advanced(state, i as nat),
                Some(Val::Double(out[i])),
                advanced(state, (i + 1) as nat),
            )
            &&& after == advanced(state, n as nat)
        },
{
    reveal(is_drawn);
    lemma_advanced_twice(state, (2 * i) as nat);
    lemma_advanced_twice(state, i as nat);
    if v is DoubleArray {
        let out = v->DoubleArray_0;
        assert(out[i] == out[i]);
    }
}

/// Bulk integers are single draws one after the other.
pub proof fn law_integer_fills_are_draws<F: Fn(FloatOp, u64, u64) -> u64>(
    math: F,
    state: u64,
    n: usize,
    lo: i64,
    hi: i64,
    v: Val,
    after: u64,
    i: int,
)
    requires
        0 <= i < n,
        is_drawn(math, Draw::FillIntegers { n, lo, hi }, state, Some(v), after),
    ensures
        v matches Val::LongArray(out) && out.len() == n && is_drawn(
            math,
            Draw::Integers { lo, hi },
            advanced(state, i as nat),
            Some(Val::Long(out[i])),
            advanced(state, (i + 1) as nat),
        ),
        after == advanced(state, n as nat),
{
    reveal(is_drawn);
    lemma_advanced_twice(state, i as nat);
    let out = v->LongArray_0;
    assert(out[i] == out[i]);
}

} // verus!
