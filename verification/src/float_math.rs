//! Random doubles: distributions over the uniform draws of a stream. Arithmetic on doubles is a
//! function that the caller supplies.

use vstd::prelude::*;
use crate::doubles::double_at_most;
use crate::doubles::{at_most, ONE};
use crate::rng::{advanced, drawn, is_unit_double, stepped};
use crate::rng::NumRng;

verus! {

/// An operation on doubles. Those of one operand ignore the second.
#[derive(Clone, Copy, Debug, PartialEq, Eq, Structural)]
pub enum FloatOp {
    Plus,
    Minus,
    Times,
    Over,
    Max,
    Min,
    Exp,
    Ln,
    Ln1p,
    Sqrt,
    Abs,
    Neg,
    Cos,
    /// Half away from zero, to the number of decimal places that the second operand holds.
    RoundTo,
}

/// The bit pattern of minus two.
pub const MINUS_TWO: u64 = 0xC000_0000_0000_0000;

/// The bit pattern of two times pi.
pub const TWO_PI: u64 = 0x4019_21FB_5444_2D18;

/// `r` is what the arithmetic may give.
pub open spec fn gives_double<F: Fn(FloatOp, u64, u64) -> u64>(
    math: F,
    op: FloatOp,
    a: u64,
    b: u64,
    r: u64,
) -> bool {
    call_ensures(math, (op, a, b), r)
}

/// The arithmetic takes any doubles.
pub open spec fn total_math<F: Fn(FloatOp, u64, u64) -> u64>(math: F) -> bool {
    forall|op: FloatOp, a: u64, b: u64| #[trigger] call_requires(math, (op, a, b))
}

/// `r` is `lo + (hi - lo) * u`, with these steps.
pub open spec fn uniform_steps<F: Fn(FloatOp, u64, u64) -> u64>(
    math: F,
    lo: u64,
    hi: u64,
    u: u64,
    span: u64,
    part: u64,
    r: u64,
) -> bool {
    &&& gives_double(math, FloatOp::Minus, hi, lo, span)
    &&& gives_double(math, FloatOp::Times, span, u, part)
    &&& gives_double(math, FloatOp::Plus, lo, part, r)
}

/// `r` is a uniform double between `lo` and `hi`, from the draw of the state.
pub open spec fn is_uniform<F: Fn(FloatOp, u64, u64) -> u64>(
    math: F,
    state: u64,
    lo: u64,
    hi: u64,
    r: u64,
) -> bool {
    exists|u: u64, span: u64, part: u64|
        is_unit_double(u, (drawn(state) >> 11) as nat) && #[trigger] uniform_steps(
            math,
            lo,
            hi,
            u,
            span,
            part,
            r,
        )
}

/// The steps of a Box-Muller draw.
pub struct NormalSteps {
    pub u1: u64,
    pub u2: u64,
    pub rest: u64,
    pub log: u64,
    pub minus_two_log: u64,
    pub radius: u64,
    pub angle: u64,
    pub cosine: u64,
    pub scaled: u64,
    pub offset: u64,
}

/// `r` is `mu + sigma * sqrt(-2 ln(1 - u1)) * cos(2 pi u2)`, with these steps.
pub open spec fn normal_steps<F: Fn(FloatOp, u64, u64) -> u64>(
    math: F,
    mu: u64,
    sigma: u64,
    s: NormalSteps,
    r: u64,
) -> bool {
    &&& gives_double(math, FloatOp::Minus, ONE, s.u1, s.rest)
    &&& gives_double(math, FloatOp::Ln, s.rest, 0, s.log)
    &&& gives_double(math, FloatOp::Times, MINUS_TWO, s.log, s.minus_two_log)
    &&& gives_double(math, FloatOp::Sqrt, s.minus_two_log, 0, s.radius)
    &&& gives_double(math, FloatOp::Times, sigma, s.radius, s.scaled)
    &&& gives_double(math, FloatOp::Times, TWO_PI, s.u2, s.angle)
    &&& gives_double(math, FloatOp::Cos, s.angle, 0, s.cosine)
    &&& gives_double(math, FloatOp::Times, s.scaled, s.cosine, s.offset)
    &&& gives_double(math, FloatOp::Plus, mu, s.offset, r)
}

/// `r` is a normal double, from the two draws of the state.
pub open spec fn is_normal<F: Fn(FloatOp, u64, u64) -> u64>(
    math: F,
    state: u64,
    mu: u64,
    sigma: u64,
    r: u64,
) -> bool {
    exists|s: NormalSteps|
        is_unit_double(s.u1, (drawn(state) >> 11) as nat) && is_unit_double(
            s.u2,
            (drawn(stepped(state)) >> 11) as nat,
        ) && #[trigger] normal_steps(math, mu, sigma, s, r)
}

/// `r` is the exponential of a normal double.
pub open spec fn is_lognormal<F: Fn(FloatOp, u64, u64) -> u64>(
    math: F,
    state: u64,
    mu: u64,
    sigma: u64,
    r: u64,
) -> bool {
    exists|n: u64|
        #[trigger] is_normal(math, state, mu, sigma, n) && gives_double(
            math,
            FloatOp::Exp,
            n,
            0,
            r,
        )
}

/// A product of unit doubles times the draw of a state, as the arithmetic gives it.
pub open spec fn times_draw<F: Fn(FloatOp, u64, u64) -> u64>(
    math: F,
    state: u64,
    before: u64,
    after: u64,
) -> bool {
    exists|u: u64| #[trigger]
        is_unit_double(u, (drawn(state) >> 11) as nat) && gives_double(
            math,
            FloatOp::Times,
            before,
            u,
            after,
        )
}

/// `ps` holds the running products of the draws from a state, from one.
pub open spec fn running_products<F: Fn(FloatOp, u64, u64) -> u64>(
    math: F,
    state: u64,
    ps: Seq<u64>,
) -> bool {
    &&& ps.len() > 0
    &&& ps[0] == ONE
    &&& forall|i: int|
        1 <= i < ps.len() ==> times_draw(
            math,
            advanced(state, (i - 1) as nat),
            ps[i - 1],
            #[trigger] ps[i],
        )
}

/// `limit` is the exponential of `-lambda`.
pub open spec fn poisson_limit<F: Fn(FloatOp, u64, u64) -> u64>(
    math: F,
    lambda: u64,
    limit: u64,
) -> bool {
    exists|negated: u64| #[trigger]
        gives_double(math, FloatOp::Neg, lambda, 0, negated) && gives_double(
            math,
            FloatOp::Exp,
            negated,
            0,
            limit,
        )
}

/// The running products `ps` stay above the limit, but for the last, which is the first to reach
/// it; `None` where as many as a long can count stay above it.
pub open spec fn poisson_steps<F: Fn(FloatOp, u64, u64) -> u64>(
    math: F,
    state: u64,
    limit: u64,
    ps: Seq<u64>,
    r: Option<i64>,
) -> bool {
    &&& running_products(math, state, ps)
    &&& match r {
        Some(k) => k >= 0 && ps.len() == k + 2 && double_at_most(ps.last(), limit) && forall|i: int|
            1 <= i < ps.len() - 1 ==> !double_at_most(#[trigger] ps[i], limit),
        None => ps.len() == i64::MAX + 2 && forall|i: int|
            1 <= i < ps.len() ==> !double_at_most(#[trigger] ps[i], limit),
    }
}

/// `r` is a Poisson number, from the draws of the state: how many products of draws stay above
/// `exp(-lambda)` before one does not.
pub open spec fn is_poisson<F: Fn(FloatOp, u64, u64) -> u64>(
    math: F,
    state: u64,
    lambda: u64,
    r: Option<i64>,
) -> bool {
    exists|limit: u64, ps: Seq<u64>|
        #![trigger poisson_steps(math, state, limit, ps, r)]
        poisson_limit(math, lambda, limit) && poisson_steps(math, state, limit, ps, r)
}

/// The state that a Poisson number leaves: it takes one draw more than it counts.
pub open spec fn after_poisson(state: u64, r: Option<i64>) -> u64 {
    match r {
        Some(k) => advanced(state, (k + 1) as nat),
        None => advanced(state, (i64::MAX + 1) as nat),
    }
}

/// `xs` are Poisson numbers drawn one after the other, and `states` the states between them.
pub open spec fn poisson_chain<F: Fn(FloatOp, u64, u64) -> u64>(
    math: F,
    lambda: u64,
    xs: Seq<i64>,
    states: Seq<u64>,
) -> bool {
    &&& states.len() == xs.len() + 1
    &&& forall|i: int|
        0 <= i < xs.len() ==> is_poisson(math, states[i], lambda, Some(#[trigger] xs[i]))
            && states[i + 1] == after_poisson(states[i], Some(xs[i]))
}

/// `r` holds `n` Poisson numbers drawn from a state, and `after` is the state left; `None` where
/// one of them does not end.
pub open spec fn is_poisson_fill<F: Fn(FloatOp, u64, u64) -> u64>(
    math: F,
    state: u64,
    n: nat,
    lambda: u64,
    r: Option<Seq<i64>>,
    after: u64,
) -> bool {
    match r {
        Some(xs) => xs.len() == n && exists|states: Seq<u64>| #[trigger]
            poisson_chain(math, lambda, xs, states) && states[0] == state && states.last()
                == after,
        None => exists|xs: Seq<i64>, states: Seq<u64>| #[trigger]
            poisson_chain(math, lambda, xs, states) && xs.len() < n && states[0] == state
                && is_poisson(math, states.last(), lambda, None) && after == after_poisson(
                states.last(),
                None,
            ),
    }
}

/// Two draws further is one and one.
pub proof fn lemma_advanced_twice(state: u64, n: nat)
    ensures
        advanced(state, n + 2) == stepped(stepped(advanced(state, n))),
        advanced(state, n + 1) == stepped(advanced(state, n)),
{
    assert(advanced(state, n + 2) == stepped(advanced(state, n + 1)));
}

impl NumRng {
    /// A uniform double between `lo` and `hi`.
    pub fn uniform<F: Fn(FloatOp, u64, u64) -> u64>(&mut self, lo: u64, hi: u64, math: &F) -> (r:
        u64)
        requires
            total_math(*math),
        ensures
            is_uniform(*math, old(self).view(), lo, hi, r),
            final(self).view() == stepped(old(self).view()),
    {
        let u: u64 = self.next_double();
        assert(call_requires(*math, (FloatOp::Minus, hi, lo)));
        let span: u64 = math(FloatOp::Minus, hi, lo);
        assert(call_requires(*math, (FloatOp::Times, span, u)));
        let part: u64 = math(FloatOp::Times, span, u);
        assert(call_requires(*math, (FloatOp::Plus, lo, part)));
        let r: u64 = math(FloatOp::Plus, lo, part);
        assert(uniform_steps(*math, lo, hi, u, span, part, r));
        r
    }

    /// A normal double, by Box-Muller; taking the first draw from one keeps the logarithm's
    /// argument above zero.
    pub fn normal<F: Fn(FloatOp, u64, u64) -> u64>(&mut self, mu: u64, sigma: u64, math: &F) -> (r:
        u64)
        requires
            total_math(*math),
        ensures
            is_normal(*math, old(self).view(), mu, sigma, r),
            final(self).view() == stepped(stepped(old(self).view())),
    {
        let u1: u64 = self.next_double();
        assert(call_requires(*math, (FloatOp::Minus, ONE, u1)));
        let rest: u64 = math(FloatOp::Minus, ONE, u1);
        let u2: u64 = self.next_double();
        assert(call_requires(*math, (FloatOp::Ln, rest, 0)));
        let log: u64 = math(FloatOp::Ln, rest, 0);
        assert(call_requires(*math, (FloatOp::Times, MINUS_TWO, log)));
        let minus_two_log: u64 = math(FloatOp::Times, MINUS_TWO, log);
        assert(call_requires(*math, (FloatOp::Sqrt, minus_two_log, 0)));
        let radius: u64 = math(FloatOp::Sqrt, minus_two_log, 0);
        assert(call_requires(*math, (FloatOp::Times, sigma, radius)));
        let scaled: u64 = math(FloatOp::Times, sigma, radius);
        assert(call_requires(*math, (FloatOp::Times, TWO_PI, u2)));
        let angle: u64 = math(FloatOp::Times, TWO_PI, u2);
        assert(call_requires(*math, (FloatOp::Cos, angle, 0)));
        let cosine: u64 = math(FloatOp::Cos, angle, 0);
        assert(call_requires(*math, (FloatOp::Times, scaled, cosine)));
        let offset: u64 = math(FloatOp::Times, scaled, cosine);
        assert(call_requires(*math, (FloatOp::Plus, mu, offset)));
        let r: u64 = math(FloatOp::Plus, mu, offset);
        proof {
            let s = NormalSteps {
                u1,
                u2,
                rest,
                log,
                minus_two_log,
                radius,
                angle,
                cosine,
                scaled,
                offset,
            };
            assert(normal_steps(*math, mu, sigma, s, r));
        }
        r
    }

    /// The exponential of a normal double.
    pub fn lognormal<F: Fn(FloatOp, u64, u64) -> u64>(
        &mut self,
        mu: u64,
        sigma: u64,
        math: &F,
    ) -> (r: u64)
        requires
            total_math(*math),
        ensures
            is_lognormal(*math, old(self).view(), mu, sigma, r),
            final(self).view() == stepped(stepped(old(self).view())),
    {
        let n: u64 = self.normal(mu, sigma, math);
        assert(call_requires(*math, (FloatOp::Exp, n, 0)));
        math(FloatOp::Exp, n, 0)
    }

    /// `n` uniform doubles.
    pub fn fill_uniform<F: Fn(FloatOp, u64, u64) -> u64>(
        &mut self,
        n: usize,
        lo: u64,
        hi: u64,
        math: &F,
    ) -> (r: Vec<u64>)
        requires
            total_math(*math),
        ensures
            r@.len() == n,
            forall|i: int|
                0 <= i < n ==> is_uniform(
                    *math,
                    advanced(old(self).view(), i as nat),
                    lo,
                    hi,
                    #[trigger] r@[i],
                ),
            final(self).view() == advanced(old(self).view(), n as nat),
    {
        let ghost start = self.view();
        let mut r: Vec<u64> = Vec::new();
        for k in 0..n
            invariant
                total_math(*math),
                start == old(self).view(),
                r@.len() == k,
                self.view() == advanced(start, k as nat),
                forall|i: int|
                    0 <= i < k ==> is_uniform(
                        *math,
                        advanced(start, i as nat),
                        lo,
                        hi,
                        #[trigger] r@[i],
                    ),
        {
            let x: u64 = self.uniform(lo, hi, math);
            r.push(x);
        }
        r
    }

    /// `n` normal doubles.
    pub fn fill_normal<F: Fn(FloatOp, u64, u64) -> u64>(
        &mut self,
        n: usize,
        mu: u64,
        sigma: u64,
        math: &F,
    ) -> (r: Vec<u64>)
        requires
            total_math(*math),
        ensures
            r@.len() == n,
            forall|i: int|
                0 <= i < n ==> is_normal(
                    *math,
                    advanced(old(self).view(), (2 * i) as nat),
                    mu,
                    sigma,
                    #[trigger] r@[i],
                ),
            final(self).view() == advanced(old(self).view(), 2 * n as nat),
    {
        let ghost start = self.view();
        let mut r: Vec<u64> = Vec::new();
        for k in 0..n
            invariant
                total_math(*math),
                start == old(self).view(),
                r@.len() == k,
                self.view() == advanced(start, (2 * k) as nat),
                forall|i: int|
                    0 <= i < k ==> is_normal(
                        *math,
                        advanced(start, (2 * i) as nat),
                        mu,
                        sigma,
                        #[trigger] r@[i],
                    ),
        {
            let x: u64 = self.normal(mu, sigma, math);
            r.push(x);
            proof {
                lemma_advanced_twice(start, (2 * k) as nat);
            }
        }
        r
    }

    /// `n` lognormal doubles.
    pub fn fill_lognormal<F: Fn(FloatOp, u64, u64) -> u64>(
        &mut self,
        n: usize,
        mu: u64,
        sigma: u64,
        math: &F,
    ) -> (r: Vec<u64>)
        requires
            total_math(*math),
        ensures
            r@.len() == n,
            forall|i: int|
                0 <= i < n ==> is_lognormal(
                    *math,
                    advanced(old(self).view(), (2 * i) as nat),
                    mu,
                    sigma,
                    #[trigger] r@[i],
                ),
            final(self).view() == advanced(old(self).view(), 2 * n as nat),
    {
        let ghost start = self.view();
        let mut r: Vec<u64> = Vec::new();
        for k in 0..n
            invariant
                total_math(*math),
                start == old(self).view(),
                r@.len() == k,
                self.view() == advanced(start, (2 * k) as nat),
                forall|i: int|
                    0 <= i < k ==> is_lognormal(
                        *math,
                        advanced(start, (2 * i) as nat),
                        mu,
                        sigma,
                        #[trigger] r@[i],
                    ),
        {
            let x: u64 = self.lognormal(mu, sigma, math);
            r.push(x);
            proof {
                lemma_advanced_twice(start, (2 * k) as nat);
            }
        }
        r
    }

    /// A Poisson number, by Knuth's algorithm; fine for small lambdas. `None` where as many
    /// products as a long can count stay above the limit.
    pub fn poisson<F: Fn(FloatOp, u64, u64) -> u64>(&mut self, lambda: u64, math: &F) -> (r: Option<
        i64,
    >)
        requires
            total_math(*math),
        ensures
            is_poisson(*math, old(self).view(), lambda, r),
            final(self).view() == after_poisson(old(self).view(), r),
    {
        let ghost start = self.view();
        assert(call_requires(*math, (FloatOp::Neg, lambda, 0)));
        let negated: u64 = math(FloatOp::Neg, lambda, 0);
        assert(call_requires(*math, (FloatOp::Exp, negated, 0)));
        let limit: u64 = math(FloatOp::Exp, negated, 0);
        assert(gives_double(*math, FloatOp::Neg, lambda, 0, negated));
        assert(poisson_limit(*math, lambda, limit));
        let mut p: u64 = ONE;
        let mut k: i64 = 0;
        let ghost mut ps = seq![ONE];
        loop
            invariant
                total_math(*math),
                start == old(self).view(),
                k >= 0,
                ps.len() == k + 1,
                ps.last() == p,
                self.view() == advanced(start, k as nat),
                running_products(*math, start, ps),
                poisson_limit(*math, lambda, limit),
                forall|i: int| 1 <= i < ps.len() ==> !double_at_most(#[trigger] ps[i], limit),
            decreases i64::MAX - k,
        {
            let ghost before = ps;
            let u: u64 = self.next_double();
            assert(call_requires(*math, (FloatOp::Times, p, u)));
            let next: u64 = math(FloatOp::Times, p, u);
            proof {
                assert(is_unit_double(u, (drawn(advanced(start, k as nat)) >> 11) as nat));
                assert(gives_double(*math, FloatOp::Times, p, u, next));
                assert(times_draw(*math, advanced(start, k as nat), p, next));
                ps = ps.push(next);
                assert forall|i: int| 1 <= i < ps.len() implies times_draw(
                    *math,
                    advanced(start, (i - 1) as nat),
                    ps[i - 1],
                    #[trigger] ps[i],
                ) by {
                    if i < before.len() {
                        assert(ps[i] == before[i] && ps[i - 1] == before[i - 1]);
                    }
                }
                assert(advanced(start, (k + 1) as nat) == stepped(advanced(start, k as nat)));
            }
            p = next;
            if at_most(p, limit) {
                assert(poisson_steps(*math, start, limit, ps, Some(k)));
                return Some(k);
            }
            if k == i64::MAX {
                assert(poisson_steps(*math, start, limit, ps, None));
                return None;
            }
            k = k + 1;
        }
    }

    /// `n` Poisson numbers; `None` where one of them does not end.
    pub fn fill_poisson<F: Fn(FloatOp, u64, u64) -> u64>(
        &mut self,
        n: usize,
        lambda: u64,
        math: &F,
    ) -> (r: Option<Vec<i64>>)
        requires
            total_math(*math),
        ensures
            is_poisson_fill(
                *math,
                old(self).view(),
                n as nat,
                lambda,
                match r {
                    Some(xs) => Some(xs@),
                    None => None,
                },
                final(self).view(),
            ),
    {
        let ghost start = self.view();
        let ghost mut states = seq![start];
        let mut xs: Vec<i64> = Vec::new();
        for k in 0..n
            invariant
                total_math(*math),
                start == old(self).view(),
                xs@.len() == k,
                poisson_chain(*math, lambda, xs@, states),
                states[0] == start,
                states.last() == self.view(),
        {
            let x: i64 = match self.poisson(lambda, math) {
                Some(x) => x,
                None => {
                    return None;
                },
            };
            let ghost before = xs@;
            let ghost passed = states;
            xs.push(x);
            proof {
                states = states.push(self.view());
                assert forall|i: int| 0 <= i < xs@.len() implies is_poisson(
                    *math,
                    states[i],
                    lambda,
                    Some(#[trigger] xs@[i]),
                ) && states[i + 1] == after_poisson(states[i], Some(xs@[i])) by {
                    assert(states[i] == passed[i]);
                    if i < before.len() {
                        assert(xs@[i] == before[i]);
                        assert(states[i + 1] == passed[i + 1]);
                    }
                }
            }
        }
        Some(xs)
    }
}

} // verus!
