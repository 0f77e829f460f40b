//! The numeric namespace: what each function takes, what it refuses, and which kernel or draw it
//! runs.

use vstd::prelude::*;
use crate::decimal::{digits, int_text};
use crate::decimal::{push_digits, push_int};
use crate::doubles::{is_double_of_long, law_one_nearest_double};
use crate::doubles::{of_long, SIGN_BIT};
use crate::float_math::{
    after_poisson, is_lognormal, is_normal, is_poisson, is_poisson_fill, is_uniform, total_math,
};
use crate::float_math::FloatOp;
use crate::javamap::{referred, tag_of, Native};
use crate::javamap::{Heap, JavaObject, NativeObject};
use crate::kernels::kernel_view;
use crate::rng::{advanced, drawn, drawn_between, is_unit_double, numbers, shuffled, stepped};
use crate::rng::NumRng;
use crate::text::{push_text, text_copy};
use crate::value::{kind_of, vals, Val};
use crate::value::Value;

verus! {

pub const NS: &'static str = "cljrs.num";

// ---------------------------------------------------------------------------
// Arguments
// ---------------------------------------------------------------------------

/// The double nearest to a long.
pub open spec fn double_of_long(n: int) -> u64 {
    choose|b: u64| is_double_of_long(b, n)
}

/// A long has one nearest double.
pub proof fn law_double_of_long_is_unique(b: u64, n: int)
    requires
        is_double_of_long(b, n),
    ensures
        b == double_of_long(n),
{
    let c = double_of_long(n);
    assert(is_double_of_long(c, n));
    if n < 0 {
        law_one_nearest_double((b - SIGN_BIT) as nat, (c - SIGN_BIT) as nat, (-n) as nat);
    } else {
        law_one_nearest_double(b as nat, c as nat, n as nat);
    }
}

/// An argument of the wrong type.
pub open spec fn arg_error(i: nat, expected: Seq<char>, v: Val) -> Seq<char> {
    "argument "@ + digits(i) + ": expected "@ + expected + ", got "@ + kind_of(v)
}

/// The double that a number argument is, or what is wrong with it.
pub open spec fn number_arg(args: Seq<Val>, i: int) -> Result<u64, Seq<char>> {
    match args[i] {
        Val::Double(x) => Ok(x),
        Val::Long(n) => Ok(double_of_long(n as int)),
        other => Err(arg_error(i as nat, "number"@, other)),
    }
}

/// The long that an integer argument is, or what is wrong with it.
pub open spec fn integer_arg(args: Seq<Val>, i: int) -> Result<i64, Seq<char>> {
    match args[i] {
        Val::Long(n) => Ok(n),
        other => Err(arg_error(i as nat, "integer"@, other)),
    }
}

/// The text that a string argument is, or what is wrong with it.
pub open spec fn text_arg(args: Seq<Val>, i: int) -> Result<Seq<char>, Seq<char>> {
    match args[i] {
        Val::Str(s) => Ok(s),
        other => Err(arg_error(i as nat, "string"@, other)),
    }
}

/// The size that an integer argument is, or what is wrong with it.
pub open spec fn size_arg(args: Seq<Val>, i: int) -> Result<nat, Seq<char>> {
    match integer_arg(args, i) {
        Err(e) => Err(e),
        Ok(n) => if n < 0 {
            Err(
                "argument "@ + digits(i as nat) + ": expected non-negative size, got "@ + int_text(
                    n as int,
                ),
            )
        } else {
            Ok(n as nat)
        },
    }
}

fn wrong_arg(i: usize, expected: &str, v: &Value) -> (r: String)
    ensures
        r@ == arg_error(i as nat, expected@, v.view()),
{
    let mut m = text_copy("argument ");
    push_digits(&mut m, i as u64);
    push_text(&mut m, ": expected ");
    push_text(&mut m, expected);
    push_text(&mut m, ", got ");
    push_text(&mut m, v.kind());
    m
}

/// The double that an argument is.
pub fn f64_arg(args: &[Value], i: usize) -> (r: Result<u64, String>)
    requires
        i < args@.len(),
    ensures
        (match r {
            Ok(x) => Ok::<u64, Seq<char>>(x),
            Err(e) => Err(e@),
        }) == number_arg(vals(args@), i as int),
{
    assert(vals(args@)[i as int] == args@[i as int].view());
    match &args[i] {
        Value::Double(x) => Ok(*x),
        Value::Long(n) => {
            let x: u64 = of_long(*n);
            proof {
                law_double_of_long_is_unique(x, *n as int);
            }
            Ok(x)
        },
        other => Err(wrong_arg(i, "number", other)),
    }
}

/// The long that an argument is.
pub fn i64_arg(args: &[Value], i: usize) -> (r: Result<i64, String>)
    requires
        i < args@.len(),
    ensures
        (match r {
            Ok(x) => Ok::<i64, Seq<char>>(x),
            Err(e) => Err(e@),
        }) == integer_arg(vals(args@), i as int),
{
    assert(vals(args@)[i as int] == args@[i as int].view());
    match &args[i] {
        Value::Long(n) => Ok(*n),
        other => Err(wrong_arg(i, "integer", other)),
    }
}

/// The text that an argument is.
pub fn str_arg(args: &[Value], i: usize) -> (r: Result<String, String>)
    requires
        i < args@.len(),
    ensures
        (match r {
            Ok(x) => Ok::<Seq<char>, Seq<char>>(x@),
            Err(e) => Err(e@),
        }) == text_arg(vals(args@), i as int),
{
    assert(vals(args@)[i as int] == args@[i as int].view());
    match &args[i] {
        Value::Str(s) => Ok(s.clone()),
        other => Err(wrong_arg(i, "string", other)),
    }
}

/// The size that an argument is.
pub fn usize_arg(args: &[Value], i: usize) -> (r: Result<u64, String>)
    requires
        i < args@.len(),
    ensures
        (match r {
            Ok(x) => Ok::<nat, Seq<char>>(x as nat),
            Err(e) => Err(e@),
        }) == size_arg(vals(args@), i as int),
        r matches Ok(x) ==> x <= i64::MAX,
{
    match i64_arg(args, i) {
        Ok(n) => {
            if n < 0 {
                let mut m = text_copy("argument ");
                push_digits(&mut m, i as u64);
                push_text(&mut m, ": expected non-negative size, got ");
                push_int(&mut m, n);
                return Err(m);
            }
            Ok(n as u64)
        },
        Err(e) => Err(e),
    }
}

// ---------------------------------------------------------------------------
// Handles of random streams
// ---------------------------------------------------------------------------

/// The state of the stream that a value refers to, or what is wrong with the value.
pub open spec fn stream_of(v: Val, heap: Seq<Native>) -> Result<u64, Seq<char>> {
    match referred(v, heap) {
        Some(Native::Rng(state)) => Ok(state),
        Some(other) => Err("expected NumRng handle, got native object "@ + tag_of(other)),
        None => Err("expected NumRng handle, got "@ + kind_of(v)),
    }
}

impl NumRng {
    /// Put the stream on the heap.
    pub fn into_value(self, heap: &mut Heap) -> (r: Value)
        requires
            old(heap).view().len() <= u64::MAX,
        ensures
            final(heap).view() == old(heap).view().push(Native::Rng(self.view())),
            r.view() == Val::NativeObject(old(heap).view().len() as u64),
    {
        heap.add_object(NativeObject::Rng(self))
    }
}

/// The handle of a stream, or an explanation of what went wrong.
pub fn as_rng(v: &Value, heap: &Heap) -> (r: Result<u64, String>)
    ensures
        match r {
            Ok(h) => v.view() == Val::NativeObject(h) && h < heap.view().len()
                && heap.view()[h as int] is Rng && stream_of(v.view(), heap.view()) is Ok,
            Err(e) => stream_of(v.view(), heap.view()) == Err::<u64, Seq<char>>(e@),
        },
{
    match v {
        Value::NativeObject(h) => match heap.object(*h) {
            Some(NativeObject::Rng(_)) => Ok(*h),
            Some(other) => {
                let mut m = text_copy("expected NumRng handle, got native object ");
                push_text(&mut m, other.type_tag());
                Err(m)
            },
            None => {
                let mut m = text_copy("expected NumRng handle, got ");
                push_text(&mut m, v.kind());
                Err(m)
            },
        },
        other => {
            let mut m = text_copy("expected NumRng handle, got ");
            push_text(&mut m, other.kind());
            Err(m)
        },
    }
}

/// What to draw from a stream.
#[derive(Clone, Copy, Debug, PartialEq, Eq, Structural)]
pub enum Draw {
    Double,
    Long,
    Integers { lo: i64, hi: i64 },
    Uniform { lo: u64, hi: u64 },
    Normal { mu: u64, sigma: u64 },
    Lognormal { mu: u64, sigma: u64 },
    FillNormal { n: usize, mu: u64, sigma: u64 },
    FillUniform { n: usize, lo: u64, hi: u64 },
    FillLognormal { n: usize, mu: u64, sigma: u64 },
    SampleIdx { n: usize, m: usize },
    FillIntegers { n: usize, lo: i64, hi: i64 },
    Poisson { lambda: u64 },
    FillPoisson { n: usize, lambda: u64 },
}

/// The draw's range is one that can be drawn from.
pub open spec fn drawable(d: Draw) -> bool {
    match d {
        Draw::Integers { lo, hi } => lo < hi,
        Draw::FillIntegers { n, lo, hi } => lo < hi,
        Draw::SampleIdx { n, m } => m <= i64::MAX,
        _ => true,
    }
}

/// `v` is what a draw gives from a state, and `after` the state that it leaves; no value where the
/// draw is a Poisson number that does not end.
#[verifier::opaque]
pub open spec fn is_drawn<F: Fn(FloatOp, u64, u64) -> u64>(
    math: F,
    d: Draw,
    state: u64,
    v: Option<Val>,
    after: u64,
) -> bool {
    match d {
        Draw::Poisson { lambda } => match v {
            Some(x) => x is Long && is_poisson(math, state, lambda, Some(x->Long_0)) && after
                == after_poisson(state, Some(x->Long_0)),
            None => is_poisson(math, state, lambda, None) && after == after_poisson(state, None),
        },
        Draw::FillPoisson { n, lambda } => match v {
            Some(x) => x is LongArray && is_poisson_fill(
                math,
                state,
                n as nat,
                lambda,
                Some(x->LongArray_0),
                after,
            ),
            None => is_poisson_fill(math, state, n as nat, lambda, None, after),
        },
        _ => v is Some && is_ended_draw(math, d, state, v->Some_0, after),
    }
}

/// `v` is what a draw of a number that always ends gives from a state, and `after` the state that
/// it leaves.
pub open spec fn is_ended_draw<F: Fn(FloatOp, u64, u64) -> u64>(
    math: F,
    d: Draw,
    state: u64,
    v: Val,
    after: u64,
) -> bool {
    match d {
        Draw::Double => v is Double && is_unit_double(v->Double_0, (drawn(state) >> 11) as nat)
            && after == stepped(state),
        Draw::Long => v == Val::Long(drawn(state) as i64) && after == stepped(state),
        Draw::Integers { lo, hi } => v is Long && v->Long_0 == drawn_between(
            state,
            lo as int,
            hi as int,
        ) && after == stepped(state),
        Draw::Uniform { lo, hi } => v is Double && is_uniform(math, state, lo, hi, v->Double_0)
            && after == stepped(state),
        Draw::Normal { mu, sigma } => v is Double && is_normal(math, state, mu, sigma, v->Double_0)
            && after == stepped(stepped(state)),
        Draw::Lognormal { mu, sigma } => v is Double && is_lognormal(
            math,
            state,
            mu,
            sigma,
            v->Double_0,
        ) && after == stepped(stepped(state)),
        Draw::FillNormal { n, mu, sigma } => v is DoubleArray && v->DoubleArray_0.len() == n
            && after == advanced(state, 2 * n as nat) && forall|i: int|
            0 <= i < n ==> is_normal(
                math,
                advanced(state, (2 * i) as nat),
                mu,
                sigma,
                #[trigger] v->DoubleArray_0[i],
            ),
        Draw::FillUniform { n, lo, hi } => v is DoubleArray && v->DoubleArray_0.len() == n && after
            == advanced(state, n as nat) && forall|i: int|
            0 <= i < n ==> is_uniform(
                math,
                advanced(state, i as nat),
                lo,
                hi,
                #[trigger] v->DoubleArray_0[i],
            ),
        Draw::FillLognormal { n, mu, sigma } => v is DoubleArray && v->DoubleArray_0.len() == n
            && after == advanced(state, 2 * n as nat) && forall|i: int|
            0 <= i < n ==> is_lognormal(
                math,
                advanced(state, (2 * i) as nat),
                mu,
                sigma,
                #[trigger] v->DoubleArray_0[i],
            ),
        Draw::SampleIdx { n, m } => {
            let k = if n <= m {
                n as nat
            } else {
                m as nat
            };
            v == Val::LongArray(shuffled(numbers(m as nat), state, k).take(k as int)) && after
                == advanced(state, k)
        },
        Draw::FillIntegers { n, lo, hi } => v is LongArray && v->LongArray_0.len() == n && after
            == advanced(state, n as nat) && forall|i: int|
            0 <= i < n ==> #[trigger] v->LongArray_0[i] == drawn_between(
                advanced(state, i as nat),
                lo as int,
                hi as int,
            ),
        Draw::Poisson { .. } => false,
        Draw::FillPoisson { .. } => false,
    }
}

/// What a draw that may not end comes to.
pub open spec fn maybe_val(v: Option<Value>) -> Option<Val> {
    match v {
        Some(x) => Some(x.view()),
        None => None,
    }
}

fn draw_from<F: Fn(FloatOp, u64, u64) -> u64>(r: &mut NumRng, d: Draw, math: &F) -> (v: Option<
    Value,
>)
    requires
        drawable(d),
        total_math(*math),
    ensures
        is_drawn(*math, d, old(r).view(), maybe_val(v), final(r).view()),
{
    reveal(is_drawn);
    Some(
        match d {
            Draw::Double => Value::Double(r.next_double()),
            Draw::Long => Value::Long(r.next_u64() as i64),
            Draw::Integers { lo, hi } => Value::Long(r.integers(lo, hi)),
            Draw::Uniform { lo, hi } => Value::Double(r.uniform(lo, hi, math)),
            Draw::Normal { mu, sigma } => Value::Double(r.normal(mu, sigma, math)),
            Draw::Lognormal { mu, sigma } => Value::Double(r.lognormal(mu, sigma, math)),
            Draw::FillNormal { n, mu, sigma } => Value::DoubleArray(
                r.fill_normal(n, mu, sigma, math),
            ),
            Draw::FillUniform { n, lo, hi } => Value::DoubleArray(r.fill_uniform(n, lo, hi, math)),
            Draw::FillLognormal { n, mu, sigma } => Value::DoubleArray(
                r.fill_lognormal(n, mu, sigma, math),
            ),
            Draw::SampleIdx { n, m } => Value::LongArray(r.sample_idx(n, m)),
            Draw::FillIntegers { n, lo, hi } => Value::LongArray(r.fill_integers(n, lo, hi)),
            Draw::Poisson { lambda } => match r.poisson(lambda, math) {
                Some(k) => Value::Long(k),
                None => {
                    return None;
                },
            },
            Draw::FillPoisson { n, lambda } => match r.fill_poisson(n, lambda, math) {
                Some(ks) => Value::LongArray(ks),
                None => {
                    return None;
                },
            },
        },
    )
}

/// What a draw comes to for its caller.
pub open spec fn draw_outcome(v: Option<Val>) -> Result<Val, Seq<char>> {
    match v {
        Some(x) => Ok(x),
        None => Err("poisson draw does not end"@),
    }
}

/// What drawing from the stream that a value refers to does to the heap, and what it comes to.
pub open spec fn draw_effect<F: Fn(FloatOp, u64, u64) -> u64>(
    math: F,
    d: Draw,
    v: Val,
    before: Seq<Native>,
    after: Seq<Native>,
    result: Result<Val, Seq<char>>,
) -> bool {
    match stream_of(v, before) {
        Err(m) => result == Err::<Val, Seq<char>>(m) && after == before,
        Ok(state) => exists|x: Option<Val>, next: u64| #[trigger]
            is_drawn(math, d, state, x, next) && result == draw_outcome(x) && after
                == before.update(v->NativeObject_0 as int, Native::Rng(next)),
    }
}

proof fn lemma_draw_effect<F: Fn(FloatOp, u64, u64) -> u64>(
    math: F,
    d: Draw,
    v: Val,
    before: Seq<Native>,
    after: Seq<Native>,
    x: Option<Val>,
    next: u64,
)
    requires
        stream_of(v, before) is Ok,
        is_drawn(math, d, stream_of(v, before)->Ok_0, x, next),
        after == before.update(v->NativeObject_0 as int, Native::Rng(next)),
    ensures
        draw_effect(math, d, v, before, after, draw_outcome(x)),
{
    let result = draw_outcome(x);
    let state = stream_of(v, before)->Ok_0;
    assert(stream_of(v, before) == Ok::<u64, Seq<char>>(state));
    assert(exists|x: Option<Val>, next: u64| #[trigger]
        is_drawn(math, d, state, x, next) && result == draw_outcome(x) && after == before.update(
            v->NativeObject_0 as int,
            Native::Rng(next),
        ));
}

/// Draw from the stream that a value refers to.
pub fn with_rng<F: Fn(FloatOp, u64, u64) -> u64>(
    v: &Value,
    heap: &mut Heap,
    d: Draw,
    math: &F,
) -> (r: Result<Value, String>)
    requires
        drawable(d),
        total_math(*math),
    ensures
        draw_effect(*math, d, v.view(), old(heap).view(), final(heap).view(), kernel_view(r)),
{
    let ghost before = heap.view();
    let h: u64 = match as_rng(v, heap) {
        Ok(h) => h,
        Err(e) => {
            return Err(e);
        },
    };
    let count: usize = heap.objects.len();
    assert(h < count);
    let at: usize = h as usize;
    let object = heap.swap_object(at, NativeObject::Object(JavaObject));
    match object {
        NativeObject::Rng(stream) => {
            let ghost state = stream.view();
            let mut stream = stream;
            let x = draw_from(&mut stream, d, math);
            let ghost after = stream.view();
            let _placeholder = heap.swap_object(at, NativeObject::Rng(stream));
            assert(heap.view() =~= before.update(h as int, Native::Rng(after)));
            assert(stream_of(v.view(), before) == Ok::<u64, Seq<char>>(state));
            proof {
                lemma_draw_effect(*math, d, v.view(), before, heap.view(), maybe_val(x), after);
            }
            match x {
                Some(x) => Ok(x),
                None => Err(text_copy("poisson draw does not end")),
            }
        },
        other => {
            assert(false);
            Err(text_copy("NumRng downcast failed"))
        },
    }
}

} // verus!
