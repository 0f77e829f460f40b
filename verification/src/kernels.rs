//! Bulk numeric kernels over double and long arrays.
//!
//! Every kernel is a plain loop over an array: one call per array, not per element. Kernels are
//! pure: they read their inputs and return fresh arrays. Doubles are bit patterns; arithmetic on
//! them is a function that the caller supplies.

use vstd::prelude::*;
use crate::decimal::{digits, int_text};
use crate::decimal::{push_digits, push_int};
use crate::doubles::{double_less, finite_positive, is_double_of_long, truncated, NAN};
use crate::doubles::{less, of_long, to_long, SIGN_BIT};
use crate::kernel_laws::law_positive_positions;
use crate::text::{push_text, text_copy};
use crate::value::{kind_of, lemma_views, vals, Val};
use crate::value::Value;

verus! {

/// What a kernel came to.
pub open spec fn kernel_view(r: Result<Value, String>) -> Result<Val, Seq<char>> {
    match r {
        Ok(v) => Ok(v.view()),
        Err(e) => Err(e@),
    }
}

/// A kernel's result.
pub open spec fn yields(v: Val) -> Result<Val, Seq<char>> {
    Ok(v)
}

/// A kernel's error.
pub open spec fn complains(message: Seq<char>) -> Result<Val, Seq<char>> {
    Err(message)
}

/// The doubles of an array, or what is wrong with the value.
pub open spec fn doubles_of(v: Val) -> Result<Seq<u64>, Seq<char>> {
    match v {
        Val::DoubleArray(a) => Ok(a),
        other => Err("expected double-array, got "@ + kind_of(other)),
    }
}

/// The longs of an array, or what is wrong with the value.
pub open spec fn longs_of(v: Val) -> Result<Seq<i64>, Seq<char>> {
    match v {
        Val::LongArray(a) => Ok(a),
        other => Err("expected long-array, got "@ + kind_of(other)),
    }
}

fn got(expected: &str, v: &Value) -> (r: String)
    ensures
        r@ == expected@ + kind_of(v.view()),
{
    let mut m = text_copy(expected);
    push_text(&mut m, v.kind());
    m
}

fn copy_bits(a: &Vec<u64>) -> (r: Vec<u64>)
    ensures
        r@ == a@,
{
    let mut r: Vec<u64> = Vec::new();
    for i in 0..a.len()
        invariant
            r@ == a@.take(i as int),
    {
        r.push(a[i]);
        assert(a@.take(i + 1) =~= a@.take(i as int).push(a@[i as int]));
    }
    assert(a@.take(a@.len() as int) =~= a@);
    r
}

fn copy_longs(a: &Vec<i64>) -> (r: Vec<i64>)
    ensures
        r@ == a@,
{
    let mut r: Vec<i64> = Vec::new();
    for i in 0..a.len()
        invariant
            r@ == a@.take(i as int),
    {
        r.push(a[i]);
        assert(a@.take(i + 1) =~= a@.take(i as int).push(a@[i as int]));
    }
    assert(a@.take(a@.len() as int) =~= a@);
    r
}

/// The doubles of an array.
pub fn doubles(v: &Value) -> (r: Result<Vec<u64>, String>)
    ensures
        (match r {
            Ok(a) => Ok::<Seq<u64>, Seq<char>>(a@),
            Err(e) => Err(e@),
        }) == doubles_of(v.view()),
{
    match v {
        Value::DoubleArray(a) => Ok(copy_bits(a)),
        other => Err(got("expected double-array, got ", other)),
    }
}

/// The longs of an array.
pub fn longs(v: &Value) -> (r: Result<Vec<i64>, String>)
    ensures
        (match r {
            Ok(a) => Ok::<Seq<i64>, Seq<char>>(a@),
            Err(e) => Err(e@),
        }) == longs_of(v.view()),
{
    match v {
        Value::LongArray(a) => Ok(copy_longs(a)),
        other => Err(got("expected long-array, got ", other)),
    }
}

/// A double array.
pub fn da(v: Vec<u64>) -> (r: Value)
    ensures
        r.view() == Val::DoubleArray(v@),
{
    Value::DoubleArray(v)
}

/// A long array.
pub fn la(v: Vec<i64>) -> (r: Value)
    ensures
        r.view() == Val::LongArray(v@),
{
    Value::LongArray(v)
}

/// Either a per-element array operand or a broadcast scalar.
#[derive(Debug)]
pub enum Operand {
    Arr(Vec<u64>),
    Scalar(u64),
}

/// What an [`Operand`] holds.
pub enum OperandView {
    Arr(Seq<u64>),
    Scalar(u64),
}

impl Operand {
    pub open spec fn view(&self) -> OperandView {
        match self {
            Operand::Arr(a) => OperandView::Arr(a@),
            Operand::Scalar(x) => OperandView::Scalar(*x),
        }
    }

    /// The operand for the element at `i`.
    fn at(&self, i: usize) -> (r: u64)
        requires
            self.view() matches OperandView::Arr(a) ==> i < a.len(),
        ensures
            r == operand_at(self.view(), i as int),
    {
        match self {
            Operand::Arr(a) => a[i],
            Operand::Scalar(x) => *x,
        }
    }
}

/// The operand for the element at `i`.
pub open spec fn operand_at(o: OperandView, i: int) -> u64 {
    match o {
        OperandView::Arr(a) => a[i],
        OperandView::Scalar(x) => x,
    }
}

/// A value that can be an operand.
pub open spec fn operand_error(v: Val) -> Option<Seq<char>> {
    if v is DoubleArray || v is Double || v is Long {
        None
    } else {
        Some("expected double-array or number, got "@ + kind_of(v))
    }
}

/// `o` is the operand that the value is: an array, a double, or the double nearest to a long.
pub open spec fn is_operand(v: Val, o: OperandView) -> bool {
    match (v, o) {
        (Val::DoubleArray(a), OperandView::Arr(b)) => a == b,
        (Val::Double(x), OperandView::Scalar(y)) => x == y,
        (Val::Long(n), OperandView::Scalar(y)) => is_double_of_long(y, n as int),
        _ => false,
    }
}

/// The operand that a value is.
pub fn operand(v: &Value) -> (r: Result<Operand, String>)
    ensures
        match r {
            Ok(o) => operand_error(v.view()) is None && is_operand(v.view(), o.view()),
            Err(e) => operand_error(v.view()) == Some(e@),
        },
{
    match v {
        Value::DoubleArray(a) => Ok(Operand::Arr(copy_bits(a))),
        Value::Double(x) => Ok(Operand::Scalar(*x)),
        Value::Long(n) => Ok(Operand::Scalar(of_long(*n))),
        other => Err(got("expected double-array or number, got ", other)),
    }
}

/// Two lengths that should be one.
pub open spec fn length_mismatch(a: nat, b: nat) -> Seq<char> {
    "length mismatch: "@ + digits(a) + " vs "@ + digits(b)
}

fn mismatch(a: usize, b: usize) -> (r: String)
    ensures
        r@ == length_mismatch(a as nat, b as nat),
{
    let mut m = text_copy("length mismatch: ");
    push_digits(&mut m, a as u64);
    push_text(&mut m, " vs ");
    push_digits(&mut m, b as u64);
    m
}

/// What is wrong with the operands of an elementwise operation.
pub open spec fn zip_error(a: Val, b: Val) -> Option<Seq<char>> {
    match doubles_of(a) {
        Err(e) => Some(e),
        Ok(xs) => match operand_error(b) {
            Some(e) => Some(e),
            None => match b {
                Val::DoubleArray(ys) => if xs.len() != ys.len() {
                    Some(length_mismatch(xs.len(), ys.len()))
                } else {
                    None
                },
                _ => None,
            },
        },
    }
}

/// `r` is the elementwise result of `f` on an array and an operand.
pub open spec fn zipped<F: Fn(u64, u64) -> u64>(f: F, a: Val, b: Val, r: Val) -> bool {
    &&& a is DoubleArray
    &&& r is DoubleArray
    &&& r->DoubleArray_0.len() == a->DoubleArray_0.len()
    &&& exists|o: OperandView|
        {
            &&& #[trigger] is_operand(b, o)
            &&& forall|i: int|
                0 <= i < r->DoubleArray_0.len() ==> call_ensures(
                    f,
                    (a->DoubleArray_0[i], operand_at(o, i)),
                    #[trigger] r->DoubleArray_0[i],
                )
        }
}

/// Elementwise `f` of an array and an operand: an array of the same length, or a scalar.
pub fn zip_with<F: Fn(u64, u64) -> u64>(a: &Value, b: &Value, f: F) -> (r: Result<Value, String>)
    requires
        forall|x: u64, y: u64| #[trigger] call_requires(f, (x, y)),
    ensures
        match r {
            Ok(v) => zip_error(a.view(), b.view()) is None && zipped(
                f,
                a.view(),
                b.view(),
                v.view(),
            ),
            Err(e) => zip_error(a.view(), b.view()) == Some(e@),
        },
{
    let xs = match doubles(a) {
        Ok(xs) => xs,
        Err(e) => {
            return Err(e);
        },
    };
    let o = match operand(b) {
        Ok(o) => o,
        Err(e) => {
            return Err(e);
        },
    };
    if let Operand::Arr(ys) = &o {
        if xs.len() != ys.len() {
            return Err(mismatch(xs.len(), ys.len()));
        }
    }
    let mut out: Vec<u64> = Vec::new();
    for i in 0..xs.len()
        invariant
            forall|x: u64, y: u64| #[trigger] call_requires(f, (x, y)),
            o.view() matches OperandView::Arr(ys) ==> ys.len() == xs@.len(),
            out@.len() == i,
            forall|j: int|
                0 <= j < i ==> call_ensures(
                    f,
                    (xs@[j], operand_at(o.view(), j)),
                    #[trigger] out@[j],
                ),
    {
        let y: u64 = o.at(i);
        let x: u64 = xs[i];
        out.push(f(x, y));
    }
    assert(is_operand(b.view(), o.view()));
    Ok(da(out))
}

/// Elementwise `f` of an array.
pub fn map_unary<F: Fn(u64) -> u64>(a: &Value, f: F) -> (r: Result<Value, String>)
    requires
        forall|x: u64| #[trigger] call_requires(f, (x,)),
    ensures
        match (doubles_of(a.view()), r) {
            (Ok(xs), Ok(v)) => v.view() is DoubleArray && v.view()->DoubleArray_0.len() == xs.len()
                && forall|i: int|
                0 <= i < xs.len() ==> call_ensures(
                    f,
                    (xs[i],),
                    #[trigger] v.view()->DoubleArray_0[i],
                ),
            (Err(m), Err(e)) => e@ == m,
            _ => false,
        },
{
    let xs = match doubles(a) {
        Ok(xs) => xs,
        Err(e) => {
            return Err(e);
        },
    };
    let mut out: Vec<u64> = Vec::new();
    for i in 0..xs.len()
        invariant
            forall|x: u64| #[trigger] call_requires(f, (x,)),
            out@.len() == i,
            forall|j: int| 0 <= j < i ==> call_ensures(f, (xs@[j],), #[trigger] out@[j]),
    {
        let x: u64 = xs[i];
        out.push(f(x));
    }
    Ok(da(out))
}

/// `sums` holds the sums of the first doubles, of none to all, by the addition `plus`: from minus
/// zero, which leaves what is added to it as it is.
pub open spec fn partial_sums<F: Fn(u64, u64) -> u64>(
    plus: F,
    xs: Seq<u64>,
    sums: Seq<u64>,
) -> bool {
    &&& sums.len() == xs.len() + 1
    &&& sums[0] == SIGN_BIT
    &&& forall|i: int|
        0 <= i < xs.len() ==> call_ensures(plus, (sums[i], #[trigger] xs[i]), sums[i + 1])
}

/// `total` is the sum of doubles by the addition `plus`, from the left.
pub open spec fn is_sum<F: Fn(u64, u64) -> u64>(plus: F, xs: Seq<u64>, total: u64) -> bool {
    exists|sums: Seq<u64>| #[trigger] partial_sums(plus, xs, sums) && sums.last() == total
}

/// The sum of an array, by the addition `plus`.
pub fn sum<F: Fn(u64, u64) -> u64>(a: &Value, plus: F) -> (r: Result<u64, String>)
    requires
        forall|x: u64, y: u64| #[trigger] call_requires(plus, (x, y)),
    ensures
        match (doubles_of(a.view()), r) {
            (Ok(xs), Ok(total)) => is_sum(plus, xs, total),
            (Err(m), Err(e)) => e@ == m,
            _ => false,
        },
{
    let xs = match doubles(a) {
        Ok(xs) => xs,
        Err(e) => {
            return Err(e);
        },
    };
    let mut acc: u64 = SIGN_BIT;
    let ghost mut sums = seq![SIGN_BIT];
    for i in 0..xs.len()
        invariant
            forall|x: u64, y: u64| #[trigger] call_requires(plus, (x, y)),
            partial_sums(plus, xs@.take(i as int), sums),
            sums.last() == acc,
    {
        let x: u64 = xs[i];
        let next: u64 = plus(acc, x);
        proof {
            let before = sums;
            let seen = xs@.take(i + 1);
            sums = sums.push(next);
            assert forall|j: int| 0 <= j < seen.len() implies call_ensures(
                plus,
                (sums[j], #[trigger] seen[j]),
                sums[j + 1],
            ) by {
                assert(sums[j] == before[j]);
                if j < i {
                    assert(seen[j] == xs@.take(i as int)[j]);
                    assert(sums[j + 1] == before[j + 1]);
                }
            }
        }
        acc = next;
    }
    assert(xs@.take(xs@.len() as int) =~= xs@);
    Ok(acc)
}

/// Running sums of an array, by the addition `plus`.
pub fn cumsum<F: Fn(u64, u64) -> u64>(a: &Value, plus: F) -> (r: Result<Value, String>)
    requires
        forall|x: u64, y: u64| #[trigger] call_requires(plus, (x, y)),
    ensures
        match (doubles_of(a.view()), r) {
            (Ok(xs), Ok(v)) => v.view() is DoubleArray && v.view()->DoubleArray_0.len() == xs.len()
                && forall|i: int|
                0 <= i < xs.len() ==> call_ensures(
                    plus,
                    (
                        if i == 0 {
                            0u64
                        } else {
                            v.view()->DoubleArray_0[i - 1]
                        },
                        xs[i],
                    ),
                    #[trigger] v.view()->DoubleArray_0[i],
                ),
            (Err(m), Err(e)) => e@ == m,
            _ => false,
        },
{
    let xs = match doubles(a) {
        Ok(xs) => xs,
        Err(e) => {
            return Err(e);
        },
    };
    let mut out: Vec<u64> = Vec::new();
    let mut acc: u64 = 0;
    for i in 0..xs.len()
        invariant
            forall|x: u64, y: u64| #[trigger] call_requires(plus, (x, y)),
            out@.len() == i,
            acc == if i == 0 {
                0u64
            } else {
                out@[i - 1]
            },
            forall|j: int|
                0 <= j < i ==> call_ensures(
                    plus,
                    (
                        if j == 0 {
                            0u64
                        } else {
                            out@[j - 1]
                        },
                        xs@[j],
                    ),
                    #[trigger] out@[j],
                ),
    {
        let x: u64 = xs[i];
        acc = plus(acc, x);
        out.push(acc);
    }
    Ok(da(out))
}

/// Round each element to `decimals` places, by the rounding `round_to`.
pub fn round<F: Fn(u64, i32) -> u64>(a: &Value, decimals: i64, round_to: F) -> (r: Result<
    Value,
    String,
>)
    requires
        forall|x: u64, d: i32| #[trigger] call_requires(round_to, (x, d)),
    ensures
        match (doubles_of(a.view()), r) {
            (Ok(xs), Ok(v)) => v.view() is DoubleArray && v.view()->DoubleArray_0.len() == xs.len()
                && forall|i: int|
                0 <= i < xs.len() ==> call_ensures(
                    round_to,
                    (xs[i], decimals as i32),
                    #[trigger] v.view()->DoubleArray_0[i],
                ),
            (Err(m), Err(e)) => e@ == m,
            _ => false,
        },
{
    let xs = match doubles(a) {
        Ok(xs) => xs,
        Err(e) => {
            return Err(e);
        },
    };
    let places: i32 = decimals as i32;
    let mut out: Vec<u64> = Vec::new();
    for i in 0..xs.len()
        invariant
            forall|x: u64, d: i32| #[trigger] call_requires(round_to, (x, d)),
            out@.len() == i,
            forall|j: int|
                0 <= j < i ==> call_ensures(round_to, (xs@[j], places), #[trigger] out@[j]),
    {
        let x: u64 = xs[i];
        out.push(round_to(x, places));
    }
    Ok(da(out))
}

// ---------------------------------------------------------------------------
// Shape
// ---------------------------------------------------------------------------

/// A one-step lag: the seed, then each element but the last.
pub open spec fn lagged(xs: Seq<u64>, seed: u64) -> Seq<u64> {
    Seq::new(
        xs.len(),
        |i: int|
            if i == 0 {
                seed
            } else {
                xs[i - 1]
            },
    )
}

/// A one-step lag, such as the previous close.
pub fn lag(a: &Value, seed: u64) -> (r: Result<Value, String>)
    ensures
        kernel_view(r) == (match doubles_of(a.view()) {
            Ok(xs) => yields(Val::DoubleArray(lagged(xs, seed))),
            Err(e) => complains(e),
        }),
{
    let xs = match doubles(a) {
        Ok(xs) => xs,
        Err(e) => {
            return Err(e);
        },
    };
    let mut out: Vec<u64> = Vec::new();
    let mut prev: u64 = seed;
    for i in 0..xs.len()
        invariant
            out@ == lagged(xs@, seed).take(i as int),
            prev == if i == 0 {
                seed
            } else {
                xs@[i - 1]
            },
    {
        out.push(prev);
        prev = xs[i];
        assert(lagged(xs@, seed).take(i + 1) =~= lagged(xs@, seed).take(i as int).push(
            lagged(xs@, seed)[i as int],
        ));
    }
    assert(lagged(xs@, seed).take(xs@.len() as int) =~= lagged(xs@, seed));
    Ok(da(out))
}

/// Every `k`-th element, starting at the first.
pub open spec fn strided(xs: Seq<u64>, k: int) -> Seq<u64> {
    Seq::new(((xs.len() + k - 1) / k) as nat, |i: int| xs[i * k])
}

/// A negative or zero count where a positive one is needed.
pub open spec fn not_positive(what: Seq<char>, n: i64) -> Seq<char> {
    what + " must be positive, got "@ + int_text(n as int)
}

fn needs_positive(what: &str, n: i64) -> (r: String)
    ensures
        r@ == not_positive(what@, n),
{
    let mut m = text_copy(what);
    push_text(&mut m, " must be positive, got ");
    push_int(&mut m, n);
    m
}

/// Every `k`-th element, starting at the first, such as weekly from daily.
pub fn stride(a: &Value, k: i64) -> (r: Result<Value, String>)
    ensures
        kernel_view(r) == (if k <= 0 {
            complains(not_positive("stride"@, k))
        } else {
            match doubles_of(a.view()) {
                Ok(xs) => yields(Val::DoubleArray(strided(xs, k as int))),
                Err(e) => complains(e),
            }
        }),
{
    if k <= 0 {
        return Err(needs_positive("stride", k));
    }
    let xs = match doubles(a) {
        Ok(xs) => xs,
        Err(e) => {
            return Err(e);
        },
    };
    let n: u64 = xs.len() as u64;
    let step: u64 = k as u64;
    let whole: u64 = n / step;
    proof {
        assert(whole * step <= n < whole * step + step && whole <= whole * step) by (nonlinear_arith)
            requires
                step > 0,
                whole == n / step,
        ;
    }
    let c: u64 = if whole * step == n {
        whole
    } else {
        whole + 1
    };
    proof {
        assert((whole + 1) * step == whole * step + step) by (nonlinear_arith);
        lemma_strided_len(n as int, k as int, c as int);
    }
    let mut out: Vec<u64> = Vec::new();
    for j in 0..c
        invariant
            step == k > 0,
            n == xs@.len(),
            c * step <= n + step - 1,
            c == strided(xs@, k as int).len(),
            out@ == strided(xs@, k as int).take(j as int),
    {
        assert(j * step < n) by (nonlinear_arith)
            requires
                j < c,
                step > 0,
                c * step <= n + step - 1,
        ;
        out.push(xs[(j * step) as usize]);
        assert(strided(xs@, k as int).take(j + 1) =~= strided(xs@, k as int).take(j as int).push(
            strided(xs@, k as int)[j as int],
        ));
    }
    assert(strided(xs@, k as int).take(c as int) =~= strided(xs@, k as int));
    Ok(da(out))
}

/// The number of strides is the least that covers the length.
proof fn lemma_strided_len(n: int, k: int, c: int)
    requires
        k > 0,
        n <= c * k,
        c * k <= n + k - 1,
    ensures
        (n + k - 1) / k == c,
{
    let q = (n + k - 1) / k;
    assert(q * k <= n + k - 1 < q * k + k) by (nonlinear_arith)
        requires
            k > 0,
            q == (n + k - 1) / k,
    ;
    assert(q == c) by (nonlinear_arith)
        requires
            k > 0,
            q * k <= n + k - 1 < q * k + k,
            n <= c * k,
            c * k <= n + k - 1,
    ;
}

/// A negative length.
pub open spec fn negative_length(n: i64) -> Seq<char> {
    "length must be non-negative, got "@ + int_text(n as int)
}

fn needs_length(n: i64) -> (r: String)
    ensures
        r@ == negative_length(n),
{
    let mut m = text_copy("length must be non-negative, got ");
    push_int(&mut m, n);
    m
}

fn repeated(x: u64, n: i64) -> (r: Vec<u64>)
    requires
        n >= 0,
    ensures
        r@ == Seq::new(n as nat, |i: int| x),
{
    let mut out: Vec<u64> = Vec::new();
    let mut i: i64 = 0;
    while i < n
        invariant
            0 <= i <= n,
            out@ == Seq::new(i as nat, |j: int| x),
        decreases n - i,
    {
        out.push(x);
        i = i + 1;
        assert(out@ =~= Seq::new(i as nat, |j: int| x));
    }
    out
}

/// An array of one double, `n` times.
pub fn constant(n: i64, x: u64) -> (r: Result<Value, String>)
    ensures
        kernel_view(r) == (if n < 0 {
            complains(negative_length(n))
        } else {
            yields(Val::DoubleArray(Seq::new(n as nat, |i: int| x)))
        }),
{
    if n < 0 {
        return Err(needs_length(n));
    }
    Ok(da(repeated(x, n)))
}

/// Truncate each double toward zero.
pub fn to_longs(a: &Value) -> (r: Result<Value, String>)
    ensures
        match (doubles_of(a.view()), r) {
            (Ok(xs), Ok(v)) => v.view() is LongArray && v.view()->LongArray_0.len() == xs.len()
                && forall|i: int|
                0 <= i < xs.len() ==> #[trigger] v.view()->LongArray_0[i] == truncated(xs[i]),
            (Err(m), Err(e)) => e@ == m,
            _ => false,
        },
{
    let xs = match doubles(a) {
        Ok(xs) => xs,
        Err(e) => {
            return Err(e);
        },
    };
    let mut out: Vec<i64> = Vec::new();
    for i in 0..xs.len()
        invariant
            out@.len() == i,
            forall|j: int| 0 <= j < i ==> #[trigger] out@[j] == truncated(xs@[j]),
    {
        out.push(to_long(xs[i]));
    }
    Ok(la(out))
}

/// The double nearest to each long.
pub fn to_doubles(a: &Value) -> (r: Result<Value, String>)
    ensures
        match (longs_of(a.view()), r) {
            (Ok(xs), Ok(v)) => v.view() is DoubleArray && v.view()->DoubleArray_0.len() == xs.len()
                && forall|i: int|
                0 <= i < xs.len() ==> is_double_of_long(
                    #[trigger] v.view()->DoubleArray_0[i],
                    xs[i] as int,
                ),
            (Err(m), Err(e)) => e@ == m,
            _ => false,
        },
{
    let xs = match longs(a) {
        Ok(xs) => xs,
        Err(e) => {
            return Err(e);
        },
    };
    let mut out: Vec<u64> = Vec::new();
    for i in 0..xs.len()
        invariant
            out@.len() == i,
            forall|j: int| 0 <= j < i ==> is_double_of_long(#[trigger] out@[j], xs@[j] as int),
    {
        out.push(of_long(xs[i]));
    }
    Ok(da(out))
}

/// Sequential longs from `start` on, for surrogate id columns.
pub fn iota(n: i64, start: i64) -> (r: Result<Value, String>)
    requires
        n >= 0 ==> start + n <= i64::MAX,
    ensures
        kernel_view(r) == (if n < 0 {
            complains(negative_length(n))
        } else {
            yields(Val::LongArray(Seq::new(n as nat, |i: int| (start + i) as i64)))
        }),
{
    if n < 0 {
        return Err(needs_length(n));
    }
    let mut out: Vec<i64> = Vec::new();
    let mut i: i64 = 0;
    while i < n
        invariant
            0 <= i <= n,
            start + n <= i64::MAX,
            out@ == Seq::new(i as nat, |j: int| (start + j) as i64),
        decreases n - i,
    {
        out.push(start + i);
        i = i + 1;
        assert(out@ =~= Seq::new(i as nat, |j: int| (start + j) as i64));
    }
    Ok(la(out))
}

/// The larger of two longs.
pub open spec fn larger_long(a: i64, b: i64) -> i64 {
    if a < b {
        b
    } else {
        a
    }
}

/// Each long, raised to at least `x`.
pub fn lclamp_min(a: &Value, x: i64) -> (r: Result<Value, String>)
    ensures
        kernel_view(r) == (match longs_of(a.view()) {
            Ok(xs) => yields(Val::LongArray(xs.map_values(|v: i64| larger_long(v, x)))),
            Err(e) => complains(e),
        }),
{
    let xs = match longs(a) {
        Ok(xs) => xs,
        Err(e) => {
            return Err(e);
        },
    };
    let ghost all = xs@.map_values(|v: i64| larger_long(v, x));
    let mut out: Vec<i64> = Vec::new();
    for i in 0..xs.len()
        invariant
            all == xs@.map_values(|v: i64| larger_long(v, x)),
            out@ == all.take(i as int),
    {
        let v: i64 = xs[i];
        out.push(
            if v < x {
                x
            } else {
                v
            },
        );
        assert(all.take(i + 1) =~= all.take(i as int).push(all[i as int]));
    }
    assert(all.take(all.len() as int) =~= all);
    Ok(la(out))
}

/// Run-length expansion: each position as often as its count says; a negative count is none.
pub open spec fn counts_expanded(cs: Seq<i64>) -> Seq<i64>
    decreases cs.len(),
{
    if cs.len() == 0 {
        Seq::empty()
    } else {
        counts_expanded(cs.drop_last()) + Seq::new(
            larger_long(cs.last(), 0) as nat,
            |i: int| (cs.len() - 1) as i64,
        )
    }
}

/// Run-length expansion: a per-day count vector becomes a per-pick day-index column.
pub fn expand_counts(counts: &Value) -> (r: Result<Value, String>)
    ensures
        kernel_view(r) == (match longs_of(counts.view()) {
            Ok(cs) => yields(Val::LongArray(counts_expanded(cs))),
            Err(e) => complains(e),
        }),
{
    let cs = match longs(counts) {
        Ok(cs) => cs,
        Err(e) => {
            return Err(e);
        },
    };
    let mut out: Vec<i64> = Vec::new();
    assert(cs@.take(0) =~= Seq::empty());
    for i in 0..cs.len()
        invariant
            out@ == counts_expanded(cs@.take(i as int)),
    {
        let c: i64 = cs[i];
        let ghost before = out@;
        assert(before + Seq::new(0, |j: int| i as i64) =~= before);
        let mut k: i64 = 0;
        while k < c
            invariant
                0 <= k,
                k <= c || c < 0 && k == 0,
                out@ == before + Seq::new(k as nat, |j: int| i as i64),
            decreases c - k,
        {
            out.push(i as i64);
            k = k + 1;
            assert(out@ =~= before + Seq::new(k as nat, |j: int| i as i64));
        }
        proof {
            let seen = cs@.take(i + 1);
            assert(seen.drop_last() =~= cs@.take(i as int));
            assert(seen.last() == c);
            assert(seen.len() - 1 == i);
            assert(out@ =~= counts_expanded(seen));
        }
    }
    assert(cs@.take(cs@.len() as int) =~= cs@);
    Ok(la(out))
}

// ---------------------------------------------------------------------------
// Gathering
// ---------------------------------------------------------------------------

/// An index beyond an array.
pub open spec fn bad_index(what: Seq<char>, i: i64, len: nat) -> Seq<char> {
    what + " index "@ + int_text(i as int) + " out of bounds for length "@ + digits(len)
}

/// The first index that is none, as an error.
pub open spec fn index_error(what: Seq<char>, is: Seq<i64>, len: nat) -> Option<Seq<char>>
    decreases is.len(),
{
    if is.len() == 0 {
        None
    } else {
        match index_error(what, is.drop_last(), len) {
            Some(e) => Some(e),
            None => if 0 <= is.last() < len {
                None
            } else {
                Some(bad_index(what, is.last(), len))
            },
        }
    }
}

fn checked_idx(idx: i64, len: u64, what: &str) -> (r: Result<u64, String>)
    ensures
        match r {
            Ok(i) => 0 <= idx < len && i == idx,
            Err(e) => !(0 <= idx < len) && e@ == bad_index(what@, idx, len as nat),
        },
{
    if idx < 0 || idx as u64 >= len {
        let mut m = text_copy(what);
        push_text(&mut m, " index ");
        push_int(&mut m, idx);
        push_text(&mut m, " out of bounds for length ");
        push_digits(&mut m, len);
        return Err(m);
    }
    Ok(idx as u64)
}

/// An error among the first `k` indices is the error of all.
proof fn lemma_first_bad_index(what: Seq<char>, is: Seq<i64>, len: nat, k: int)
    requires
        0 <= k <= is.len(),
        index_error(what, is.take(k), len) is Some,
    ensures
        index_error(what, is, len) == index_error(what, is.take(k), len),
    decreases is.len() - k,
{
    if k < is.len() {
        assert(is.take(k + 1).drop_last() =~= is.take(k));
        lemma_first_bad_index(what, is, len, k + 1);
    } else {
        assert(is.take(k) =~= is);
    }
}

/// Gather doubles: the element at each index.
pub fn dtake(a: &Value, idxs: &Value) -> (r: Result<Value, String>)
    ensures
        kernel_view(r) == (match (doubles_of(a.view()), longs_of(idxs.view())) {
            (Err(e), _) => complains(e),
            (Ok(_), Err(e)) => complains(e),
            (Ok(xs), Ok(is)) => match index_error("dtake"@, is, xs.len()) {
                Some(e) => complains(e),
                None => yields(Val::DoubleArray(Seq::new(is.len(), |i: int| xs[is[i] as int]))),
            },
        }),
{
    let xs = match doubles(a) {
        Ok(xs) => xs,
        Err(e) => {
            return Err(e);
        },
    };
    let is = match longs(idxs) {
        Ok(is) => is,
        Err(e) => {
            return Err(e);
        },
    };
    let mut out: Vec<u64> = Vec::new();
    assert(is@.take(0) =~= Seq::empty());
    for i in 0..is.len()
        invariant
            doubles_of(a.view()) == Ok::<Seq<u64>, Seq<char>>(xs@),
            longs_of(idxs.view()) == Ok::<Seq<i64>, Seq<char>>(is@),
            index_error("dtake"@, is@.take(i as int), xs@.len()) is None,
            out@.len() == i,
            forall|j: int| 0 <= j < i ==> #[trigger] out@[j] == xs@[is@[j] as int],
    {
        proof {
            let seen = is@.take(i + 1);
            assert(seen.drop_last() =~= is@.take(i as int));
            assert(seen.last() == is@[i as int]);
        }
        match checked_idx(is[i], xs.len() as u64, "dtake") {
            Ok(at) => {
                out.push(xs[at as usize]);
            },
            Err(e) => {
                proof {
                    lemma_first_bad_index("dtake"@, is@, xs@.len(), i + 1);
                }
                return Err(e);
            },
        }
    }
    proof {
        assert(is@.take(is@.len() as int) =~= is@);
        assert(out@ =~= Seq::new(is@.len(), |i: int| xs@[is@[i] as int]));
    }
    Ok(da(out))
}

/// Gather longs: the element at each index.
pub fn ltake(a: &Value, idxs: &Value) -> (r: Result<Value, String>)
    ensures
        kernel_view(r) == (match (longs_of(a.view()), longs_of(idxs.view())) {
            (Err(e), _) => complains(e),
            (Ok(_), Err(e)) => complains(e),
            (Ok(xs), Ok(is)) => match index_error("ltake"@, is, xs.len()) {
                Some(e) => complains(e),
                None => yields(Val::LongArray(Seq::new(is.len(), |i: int| xs[is[i] as int]))),
            },
        }),
{
    let xs = match longs(a) {
        Ok(xs) => xs,
        Err(e) => {
            return Err(e);
        },
    };
    let is = match longs(idxs) {
        Ok(is) => is,
        Err(e) => {
            return Err(e);
        },
    };
    let mut out: Vec<i64> = Vec::new();
    assert(is@.take(0) =~= Seq::empty());
    for i in 0..is.len()
        invariant
            longs_of(a.view()) == Ok::<Seq<i64>, Seq<char>>(xs@),
            longs_of(idxs.view()) == Ok::<Seq<i64>, Seq<char>>(is@),
            index_error("ltake"@, is@.take(i as int), xs@.len()) is None,
            out@.len() == i,
            forall|j: int| 0 <= j < i ==> #[trigger] out@[j] == xs@[is@[j] as int],
    {
        proof {
            let seen = is@.take(i + 1);
            assert(seen.drop_last() =~= is@.take(i as int));
            assert(seen.last() == is@[i as int]);
        }
        match checked_idx(is[i], xs.len() as u64, "ltake") {
            Ok(at) => {
                out.push(xs[at as usize]);
            },
            Err(e) => {
                proof {
                    lemma_first_bad_index("ltake"@, is@, xs@.len(), i + 1);
                }
                return Err(e);
            },
        }
    }
    proof {
        assert(is@.take(is@.len() as int) =~= is@);
        assert(out@ =~= Seq::new(is@.len(), |i: int| xs@[is@[i] as int]));
    }
    Ok(la(out))
}

/// The first row or column index that is none, as an error; the column is looked at first.
pub open spec fn cell_error(rs: Seq<i64>, cs: Seq<i64>, row_len: nat, n_rows: nat, k: nat) -> Option<
    Seq<char>,
>
    decreases k,
{
    if k == 0 {
        None
    } else {
        match cell_error(rs, cs, row_len, n_rows, (k - 1) as nat) {
            Some(e) => Some(e),
            None => if !(0 <= cs[k - 1] < row_len) {
                Some(bad_index("gather2d col"@, cs[k - 1], row_len))
            } else if !(0 <= rs[k - 1] < n_rows) {
                Some(bad_index("gather2d row"@, rs[k - 1], n_rows))
            } else {
                None
            },
        }
    }
}

/// Rows and columns that do not pair up.
pub open spec fn unpaired(a: nat, b: nat) -> Seq<char> {
    "rows/cols length mismatch: "@ + digits(a) + " vs "@ + digits(b)
}

/// What a gather over a row-major matrix comes to.
pub open spec fn gathered(m: Seq<u64>, rs: Seq<i64>, cs: Seq<i64>, row_len: int) -> Result<
    Val,
    Seq<char>,
> {
    if rs.len() != cs.len() {
        complains(unpaired(rs.len(), cs.len()))
    } else {
        match cell_error(rs, cs, row_len as nat, (m.len() as int / row_len) as nat, rs.len()) {
            Some(e) => complains(e),
            None => yields(
                Val::DoubleArray(Seq::new(rs.len(), |i: int| m[rs[i] * row_len + cs[i]])),
            ),
        }
    }
}

/// An error among the first `k` cells is the error of all.
proof fn lemma_first_bad_cell(rs: Seq<i64>, cs: Seq<i64>, row_len: nat, n_rows: nat, k: nat, n: nat)
    requires
        k <= n,
        cell_error(rs, cs, row_len, n_rows, k) is Some,
    ensures
        cell_error(rs, cs, row_len, n_rows, n) == cell_error(rs, cs, row_len, n_rows, k),
    decreases n - k,
{
    if k < n {
        lemma_first_bad_cell(rs, cs, row_len, n_rows, k, (n - 1) as nat);
    }
}

fn gather_cells(m: &Vec<u64>, rs: &Vec<i64>, cs: &Vec<i64>, row_len: u64) -> (r: Result<
    Value,
    String,
>)
    requires
        row_len > 0,
        rs@.len() == cs@.len(),
    ensures
        kernel_view(r) == gathered(m@, rs@, cs@, row_len as int),
{
    let total: u64 = m.len() as u64;
    let n_rows: u64 = total / row_len;
    let ghost n = rs@.len();
    let mut out: Vec<u64> = Vec::new();
    for i in 0..rs.len()
        invariant
            row_len > 0,
            n == rs@.len() == cs@.len(),
            total == m@.len() <= usize::MAX,
            n_rows == total / row_len,
            cell_error(rs@, cs@, row_len as nat, n_rows as nat, i as nat) is None,
            out@.len() == i,
            forall|j: int| 0 <= j < i ==> #[trigger] out@[j] == m@[rs@[j] * row_len + cs@[j]],
    {
        let c: u64 = match checked_idx(cs[i], row_len, "gather2d col") {
            Ok(c) => c,
            Err(e) => {
                proof {
                    lemma_first_bad_cell(
                        rs@,
                        cs@,
                        row_len as nat,
                        n_rows as nat,
                        (i + 1) as nat,
                        n,
                    );
                }
                return Err(e);
            },
        };
        let row: u64 = match checked_idx(rs[i], n_rows, "gather2d row") {
            Ok(row) => row,
            Err(e) => {
                proof {
                    lemma_first_bad_cell(
                        rs@,
                        cs@,
                        row_len as nat,
                        n_rows as nat,
                        (i + 1) as nat,
                        n,
                    );
                }
                return Err(e);
            },
        };
        assert(0 <= row * row_len && row * row_len + c < total) by (nonlinear_arith)
            requires
                0 <= row < n_rows,
                0 <= c < row_len,
                row_len > 0,
                n_rows == total / row_len,
        ;
        out.push(m[(row * row_len + c) as usize]);
    }
    assert(out@ =~= Seq::new(rs@.len(), |i: int| m@[rs@[i] * row_len + cs@[i]]));
    Ok(da(out))
}

/// Two-dimensional gather over a row-major flattened matrix: the element at each row and column.
pub fn gather2d(mat: &Value, rows: &Value, cols: &Value, row_len: i64) -> (r: Result<Value, String>)
    ensures
        kernel_view(r) == (if row_len <= 0 {
            complains(not_positive("row-len"@, row_len))
        } else {
            match (doubles_of(mat.view()), longs_of(rows.view()), longs_of(cols.view())) {
                (Err(e), _, _) => complains(e),
                (Ok(_), Err(e), _) => complains(e),
                (Ok(_), Ok(_), Err(e)) => complains(e),
                (Ok(m), Ok(rs), Ok(cs)) => gathered(m, rs, cs, row_len as int),
            }
        }),
{
    if row_len <= 0 {
        return Err(needs_positive("row-len", row_len));
    }
    let m = match doubles(mat) {
        Ok(m) => m,
        Err(e) => {
            return Err(e);
        },
    };
    let rs = match longs(rows) {
        Ok(rs) => rs,
        Err(e) => {
            return Err(e);
        },
    };
    let cs = match longs(cols) {
        Ok(cs) => cs,
        Err(e) => {
            return Err(e);
        },
    };
    if rs.len() != cs.len() {
        let mut e = text_copy("rows/cols length mismatch: ");
        push_digits(&mut e, rs.len() as u64);
        push_text(&mut e, " vs ");
        push_digits(&mut e, cs.len() as u64);
        return Err(e);
    }
    gather_cells(&m, &rs, &cs, row_len as u64)
}

// ---------------------------------------------------------------------------
// Masks and matrices
// ---------------------------------------------------------------------------

/// The positions of the elements that are finite and above zero.
pub open spec fn positive_positions(xs: Seq<u64>) -> Seq<i64>
    decreases xs.len(),
{
    if xs.len() == 0 {
        Seq::empty()
    } else if finite_positive(xs.last()) {
        positive_positions(xs.drop_last()).push((xs.len() - 1) as i64)
    } else {
        positive_positions(xs.drop_last())
    }
}

/// The positions where the value is finite and strictly positive: the "has a usable price" mask.
pub fn where_pos(a: &Value) -> (r: Result<Value, String>)
    ensures
        kernel_view(r) == (match doubles_of(a.view()) {
            Ok(xs) => yields(Val::LongArray(positive_positions(xs))),
            Err(e) => complains(e),
        }),
        doubles_of(a.view()) matches Ok(xs) ==> xs.len() <= i64::MAX ==> {
            &&& r matches Ok(v)
            &&& v.view() matches Val::LongArray(at)
            &&& forall|k: int, l: int|
                0 <= k < l < at.len() ==> #[trigger] at[k] < #[trigger] at[l]
            &&& forall|i: i64| #[trigger]
                at.contains(i) <==> (0 <= i < xs.len() && 0u64 < xs[i as int]
                    < 0x7FF0_0000_0000_0000u64)
        },
{
    let xs = match doubles(a) {
        Ok(xs) => xs,
        Err(e) => {
            return Err(e);
        },
    };
    let mut out: Vec<i64> = Vec::new();
    assert(xs@.take(0) =~= Seq::empty());
    for i in 0..xs.len()
        invariant
            out@ == positive_positions(xs@.take(i as int)),
    {
        proof {
            let seen = xs@.take(i + 1);
            assert(seen.drop_last() =~= xs@.take(i as int));
            assert(seen.last() == xs@[i as int]);
        }
        let x: u64 = xs[i];
        if 0 < x && x < 0x7FF0_0000_0000_0000 {
            out.push(i as i64);
        }
    }
    assert(xs@.take(xs@.len() as int) =~= xs@);
    proof {
        if xs@.len() <= i64::MAX {
            law_positive_positions(xs@);
        }
    }
    Ok(la(out))
}

/// What is wrong with the operands of a selection.
pub open spec fn select_error(a: Val, then_value: Val, else_value: Val) -> Option<Seq<char>> {
    match doubles_of(a) {
        Err(e) => Some(e),
        Ok(xs) => match (operand_error(then_value), operand_error(else_value)) {
            (Some(e), _) => Some(e),
            (None, Some(e)) => Some(e),
            (None, None) => if then_value is DoubleArray && then_value->DoubleArray_0.len()
                != xs.len() {
                Some(length_mismatch(xs.len(), then_value->DoubleArray_0.len()))
            } else if else_value is DoubleArray && else_value->DoubleArray_0.len() != xs.len() {
                Some(length_mismatch(xs.len(), else_value->DoubleArray_0.len()))
            } else {
                None
            },
        },
    }
}

/// `r` is the elementwise selection between two operands.
pub open spec fn chosen(a: Seq<u64>, t: u64, th: OperandView, el: OperandView, r: Seq<u64>) -> bool {
    &&& r.len() == a.len()
    &&& forall|i: int|
        0 <= i < a.len() ==> #[trigger] r[i] == if double_less(a[i], t) {
            operand_at(th, i)
        } else {
            operand_at(el, i)
        }
}

/// Elementwise select: the first operand where the element is below `t`, the second elsewhere.
/// Scalars broadcast.
pub fn where_lt(a: &Value, t: u64, then_value: &Value, else_value: &Value) -> (r: Result<
    Value,
    String,
>)
    ensures
        match r {
            Ok(v) => {
                &&& select_error(a.view(), then_value.view(), else_value.view()) is None
                &&& a.view() is DoubleArray && v.view() is DoubleArray
                &&& exists|th: OperandView, el: OperandView|
                    #![trigger is_operand(then_value.view(), th), is_operand(else_value.view(), el)]
                    is_operand(then_value.view(), th) && is_operand(else_value.view(), el)
                        && chosen(
                        a.view()->DoubleArray_0,
                        t,
                        th,
                        el,
                        v.view()->DoubleArray_0,
                    )
            },
            Err(e) => select_error(a.view(), then_value.view(), else_value.view()) == Some(e@),
        },
{
    let xs = match doubles(a) {
        Ok(xs) => xs,
        Err(e) => {
            return Err(e);
        },
    };
    let th = match operand(then_value) {
        Ok(o) => o,
        Err(e) => {
            return Err(e);
        },
    };
    let el = match operand(else_value) {
        Ok(o) => o,
        Err(e) => {
            return Err(e);
        },
    };
    if let Operand::Arr(v) = &th {
        if v.len() != xs.len() {
            return Err(mismatch(xs.len(), v.len()));
        }
    }
    if let Operand::Arr(v) = &el {
        if v.len() != xs.len() {
            return Err(mismatch(xs.len(), v.len()));
        }
    }
    let mut out: Vec<u64> = Vec::new();
    for i in 0..xs.len()
        invariant
            th.view() matches OperandView::Arr(ys) ==> ys.len() == xs@.len(),
            el.view() matches OperandView::Arr(ys) ==> ys.len() == xs@.len(),
            out@.len() == i,
            forall|j: int|
                0 <= j < i ==> #[trigger] out@[j] == if double_less(xs@[j], t) {
                    operand_at(th.view(), j)
                } else {
                    operand_at(el.view(), j)
                },
    {
        let x: u64 = xs[i];
        let v: u64 = if less(x, t) {
            th.at(i)
        } else {
            el.at(i)
        };
        out.push(v);
    }
    proof {
        assert(is_operand(then_value.view(), th.view()));
        assert(is_operand(else_value.view(), el.view()));
        assert(chosen(xs@, t, th.view(), el.view(), out@));
    }
    Ok(da(out))
}

/// One row of a matrix: an array of the right length, or NaNs for nil.
pub open spec fn matrix_row(i: nat, item: Val, n: nat) -> Result<Seq<u64>, Seq<char>> {
    match item {
        Val::Nil => Ok(Seq::new(n, |j: int| NAN)),
        Val::DoubleArray(v) => if v.len() != n {
            Err("row "@ + digits(i) + " has length "@ + digits(v.len()) + ", expected "@ + digits(n))
        } else {
            Ok(v)
        },
        other => Err("row "@ + digits(i) + " must be a double-array or nil, got "@ + kind_of(other)),
    }
}

/// The rows one after the other; the first that is none is the error.
pub open spec fn stacked(items: Seq<Val>, n: nat) -> Result<Seq<u64>, Seq<char>>
    decreases items.len(),
{
    if items.len() == 0 {
        Ok(Seq::empty())
    } else {
        match stacked(items.drop_last(), n) {
            Err(e) => Err(e),
            Ok(m) => match matrix_row((items.len() - 1) as nat, items.last(), n) {
                Ok(row) => Ok(m + row),
                Err(e) => Err(e),
            },
        }
    }
}

/// An error among the first `k` rows is the error of all.
proof fn lemma_first_bad_row(items: Seq<Val>, n: nat, k: int)
    requires
        0 <= k <= items.len(),
        stacked(items.take(k), n) is Err,
    ensures
        stacked(items, n) == stacked(items.take(k), n),
    decreases items.len() - k,
{
    if k < items.len() {
        assert(items.take(k + 1).drop_last() =~= items.take(k));
        lemma_first_bad_row(items, n, k + 1);
    } else {
        assert(items.take(k) =~= items);
    }
}

fn push_all(out: &mut Vec<u64>, more: &Vec<u64>)
    ensures
        final(out)@ == old(out)@ + more@,
{
    let ghost before = out@;
    assert(before + more@.take(0) =~= before);
    for i in 0..more.len()
        invariant
            out@ == before + more@.take(i as int),
    {
        out.push(more[i]);
        assert(out@ =~= before + more@.take(i + 1));
    }
    assert(more@.take(more@.len() as int) =~= more@);
}

fn row_doubles(i: usize, item: &Value, n: i64) -> (r: Result<Vec<u64>, String>)
    requires
        n > 0,
    ensures
        (match r {
            Ok(row) => Ok::<Seq<u64>, Seq<char>>(row@),
            Err(e) => Err(e@),
        }) == matrix_row(i as nat, item.view(), n as nat),
{
    match item {
        Value::Nil => Ok(repeated(NAN, n)),
        Value::DoubleArray(v) => {
            if v.len() as u64 != n as u64 {
                let mut m = text_copy("row ");
                push_digits(&mut m, i as u64);
                push_text(&mut m, " has length ");
                push_digits(&mut m, v.len() as u64);
                push_text(&mut m, ", expected ");
                push_digits(&mut m, n as u64);
                return Err(m);
            }
            Ok(copy_bits(v))
        },
        other => {
            let mut m = text_copy("row ");
            push_digits(&mut m, i as u64);
            push_text(&mut m, " must be a double-array or nil, got ");
            push_text(&mut m, other.kind());
            Err(m)
        },
    }
}

/// Stack rows into a row-major flattened matrix: each a double array of the row length, or nil,
/// which is filled with NaN.
pub fn stack(rows: &Value, row_len: i64) -> (r: Result<Value, String>)
    ensures
        kernel_view(r) == (if row_len <= 0 {
            complains(not_positive("row-len"@, row_len))
        } else {
            match rows.view() {
                Val::Vector(items) => match stacked(items, row_len as nat) {
                    Ok(m) => yields(Val::DoubleArray(m)),
                    Err(e) => complains(e),
                },
                other => complains("rows must be a vector, got "@ + kind_of(other)),
            }
        }),
{
    if row_len <= 0 {
        return Err(needs_positive("row-len", row_len));
    }
    proof {
        lemma_views(*rows);
    }
    match rows {
        Value::Vector(items) => {
            let ghost all = vals(items@);
            let mut out: Vec<u64> = Vec::new();
            assert(all.take(0) =~= Seq::empty());
            assert(out@ =~= Seq::empty());
            for i in 0..items.len()
                invariant
                    row_len > 0,
                    all == vals(items@),
                    rows.view() == Val::Vector(all),
                    stacked(all.take(i as int), row_len as nat) == Ok::<Seq<u64>, Seq<char>>(out@),
            {
                proof {
                    let seen = all.take(i + 1);
                    assert(seen.drop_last() =~= all.take(i as int));
                    assert(seen.last() == items@[i as int].view());
                }
                match row_doubles(i, &items[i], row_len) {
                    Ok(row) => push_all(&mut out, &row),
                    Err(e) => {
                        proof {
                            lemma_first_bad_row(all, row_len as nat, i + 1);
                        }
                        return Err(e);
                    },
                }
            }
            assert(all.take(all.len() as int) =~= all);
            Ok(da(out))
        },
        other => Err(got("rows must be a vector, got ", other)),
    }
}

/// `n` elements with those of `xs` at every `k`-th position and NaN elsewhere.
pub open spec fn spread(xs: Seq<u64>, k: int, n: nat) -> Seq<u64> {
    Seq::new(
        n,
        |i: int|
            if i % k == 0 && i / k < xs.len() {
                xs[i / k]
            } else {
                NAN
            },
    )
}

/// A shape that cannot be.
pub open spec fn bad_shape(k: i64, n: i64) -> Seq<char> {
    "bad expand-stride shape: k="@ + int_text(k as int) + ", n="@ + int_text(n as int)
}

/// Inverse of `stride`: the elements at every `k`-th position of an array of length `n`, NaN
/// everywhere else, such as weekly observations placed on a daily grid.
pub fn expand_stride(a: &Value, k: i64, n: i64) -> (r: Result<Value, String>)
    ensures
        kernel_view(r) == (if k <= 0 || n < 0 {
            complains(bad_shape(k, n))
        } else {
            match doubles_of(a.view()) {
                Ok(xs) => yields(Val::DoubleArray(spread(xs, k as int, n as nat))),
                Err(e) => complains(e),
            }
        }),
{
    if k <= 0 || n < 0 {
        let mut m = text_copy("bad expand-stride shape: k=");
        push_int(&mut m, k);
        push_text(&mut m, ", n=");
        push_int(&mut m, n);
        return Err(m);
    }
    let xs = match doubles(a) {
        Ok(xs) => xs,
        Err(e) => {
            return Err(e);
        },
    };
    let ghost whole = spread(xs@, k as int, n as nat);
    let mut out: Vec<u64> = Vec::new();
    let mut i: i64 = 0;
    while i < n
        invariant
            0 <= i <= n,
            k > 0,
            whole == spread(xs@, k as int, n as nat),
            out@ == whole.take(i as int),
        decreases n - i,
    {
        let q: i64 = i / k;
        let x: u64 = if i % k == 0 && (q as u64) < xs.len() as u64 {
            xs[q as usize]
        } else {
            NAN
        };
        out.push(x);
        assert(whole.take(i + 1) =~= whole.take(i as int).push(whole[i as int]));
        i = i + 1;
    }
    assert(whole.take(n as int) =~= whole);
    Ok(da(out))
}

/// Taking every `k`-th element undoes spreading to every `k`-th position, where the grid has room
/// for each element and for no further one.
pub proof fn law_stride_undoes_spread(xs: Seq<u64>, k: int, n: nat)
    requires
        k > 0,
        xs.len() > 0 ==> (xs.len() - 1) * k < n <= xs.len() * k,
        xs.len() == 0 ==> n == 0,
    ensures
        strided(spread(xs, k, n), k) == xs,
{
    let s = spread(xs, k, n);
    if xs.len() == 0 {
        assert((0 + k - 1) / k == 0) by (nonlinear_arith)
            requires
                k > 0,
        ;
    } else {
        let c = xs.len() as int;
        assert((c - 1) * k == c * k - k) by (nonlinear_arith);
        lemma_strided_len(n as int, k, c);
    }
    assert forall|i: int| 0 <= i < xs.len() implies #[trigger] strided(s, k)[i] == xs[i] by {
        assert(0 <= i * k && i * k <= (xs.len() - 1) * k && (i * k) % k == 0 && (i * k) / k == i)
            by (nonlinear_arith)
            requires
                k > 0,
                0 <= i < xs.len(),
        ;
        assert(s[i * k] == xs[i]);
    }
    assert(strided(s, k) =~= xs);
}

} // verus!
