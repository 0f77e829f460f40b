//! Laws of the array functions as they are called: by name, on arrays and numbers.

use vstd::prelude::*;
use crate::doubles::{double_less, is_double_of_long, truncated};
use crate::float_math::{gives_double, FloatOp};
use crate::kernel_laws::{law_index_errors, law_lag, law_strides};
use crate::num_arrays::{array_arity, array_op_named, array_result, ArrayOp};
use crate::value::Val;

verus! {

/// The names of the array functions.
pub proof fn law_array_names()
    ensures
        array_op_named("add"@) == Some(ArrayOp::Zip(FloatOp::Plus)),
        array_op_named("sub"@) == Some(ArrayOp::Zip(FloatOp::Minus)),
        array_op_named("mul"@) == Some(ArrayOp::Zip(FloatOp::Times)),
        array_op_named("div"@) == Some(ArrayOp::Zip(FloatOp::Over)),
        array_op_named("emax"@) == Some(ArrayOp::Zip(FloatOp::Max)),
        array_op_named("clamp-min"@) == Some(ArrayOp::Zip(FloatOp::Max)),
        array_op_named("emin"@) == Some(ArrayOp::Zip(FloatOp::Min)),
        array_op_named("clamp-max"@) == Some(ArrayOp::Zip(FloatOp::Min)),
        array_op_named("exp"@) == Some(ArrayOp::Unary(FloatOp::Exp)),
        array_op_named("log"@) == Some(ArrayOp::Unary(FloatOp::Ln)),
        array_op_named("log1p"@) == Some(ArrayOp::Unary(FloatOp::Ln1p)),
        array_op_named("sqrt"@) == Some(ArrayOp::Unary(FloatOp::Sqrt)),
        array_op_named("abs"@) == Some(ArrayOp::Unary(FloatOp::Abs)),
        array_op_named("neg"@) == Some(ArrayOp::Unary(FloatOp::Neg)),
        array_op_named("round"@) == Some(ArrayOp::Round),
        array_op_named("cumsum"@) == Some(ArrayOp::Cumsum),
        array_op_named("sum"@) == Some(ArrayOp::Sum),
        array_op_named("lag"@) == Some(ArrayOp::Lag),
        array_op_named("stride"@) == Some(ArrayOp::Stride),
        array_op_named("constant"@) == Some(ArrayOp::Constant),
        array_op_named("iota"@) == Some(ArrayOp::Iota),
        array_op_named("lclamp-min"@) == Some(ArrayOp::LclampMin),
        array_op_named("expand-counts"@) == Some(ArrayOp::ExpandCounts),
        array_op_named("dtake"@) == Some(ArrayOp::Dtake),
        array_op_named("ltake"@) == Some(ArrayOp::Ltake),
        array_op_named("gather2d"@) == Some(ArrayOp::Gather2d),
        array_op_named("where-pos"@) == Some(ArrayOp::WherePos),
        array_op_named("where-lt"@) == Some(ArrayOp::WhereLt),
        array_op_named("stack"@) == Some(ArrayOp::Stack),
        array_op_named("expand-stride"@) == Some(ArrayOp::ExpandStride),
        array_op_named("to-longs"@) == Some(ArrayOp::ToLongs),
        array_op_named("to-doubles"@) == Some(ArrayOp::ToDoubles),
{
    reveal_strlit("add");
    reveal_strlit("sub");
    reveal_strlit("mul");
    reveal_strlit("div");
    reveal_strlit("emax");
    reveal_strlit("clamp-min");
    reveal_strlit("emin");
    reveal_strlit("clamp-max");
    reveal_strlit("exp");
    reveal_strlit("log");
    reveal_strlit("log1p");
    reveal_strlit("sqrt");
    reveal_strlit("abs");
    reveal_strlit("neg");
    reveal_strlit("round");
    reveal_strlit("cumsum");
    reveal_strlit("sum");
    reveal_strlit("lag");
    reveal_strlit("stride");
    reveal_strlit("constant");
    reveal_strlit("iota");
    reveal_strlit("lclamp-min");
    reveal_strlit("expand-counts");
    reveal_strlit("dtake");
    reveal_strlit("ltake");
    reveal_strlit("gather2d");
    reveal_strlit("where-pos");
    reveal_strlit("where-lt");
    reveal_strlit("stack");
    reveal_strlit("expand-stride");
    reveal_strlit("to-longs");
    reveal_strlit("to-doubles");
    assert("add"@.len() == 3 && "add"@[0] == 'a' && "add"@[1] == 'd');
    assert("sub"@.len() == 3 && "sub"@[0] == 's' && "sub"@[2] == 'b');
    assert("mul"@.len() == 3 && "mul"@[0] == 'm');
    assert("div"@.len() == 3 && "div"@[0] == 'd');
    assert("emax"@.len() == 4 && "emax"@[0] == 'e' && "emax"@[2] == 'a');
    assert("clamp-min"@.len() == 9 && "clamp-min"@[0] == 'c' && "clamp-min"@[7] == 'i');
    assert("emin"@.len() == 4 && "emin"@[0] == 'e' && "emin"@[2] == 'i');
    assert("clamp-max"@.len() == 9 && "clamp-max"@[0] == 'c' && "clamp-max"@[7] == 'a');
    assert("exp"@.len() == 3 && "exp"@[0] == 'e');
    assert("log"@.len() == 3 && "log"@[0] == 'l' && "log"@[1] == 'o');
    assert("log1p"@.len() == 5 && "log1p"@[0] == 'l' && "log1p"@[1] == 'o');
    assert("sqrt"@.len() == 4 && "sqrt"@[0] == 's');
    assert("abs"@.len() == 3 && "abs"@[0] == 'a' && "abs"@[1] == 'b');
    assert("neg"@.len() == 3 && "neg"@[0] == 'n');
    assert("round"@.len() == 5 && "round"@[0] == 'r');
    assert("cumsum"@.len() == 6 && "cumsum"@[0] == 'c');
    assert("sum"@.len() == 3 && "sum"@[0] == 's' && "sum"@[2] == 'm');
    assert("lag"@.len() == 3 && "lag"@[0] == 'l' && "lag"@[1] == 'a');
    assert("stride"@.len() == 6 && "stride"@[0] == 's');
    assert("constant"@.len() == 8 && "constant"@[0] == 'c');
    assert("iota"@.len() == 4 && "iota"@[0] == 'i');
    assert("lclamp-min"@.len() == 10 && "lclamp-min"@[0] == 'l');
    assert("expand-counts"@.len() == 13 && "expand-counts"@[7] == 'c');
    assert("dtake"@.len() == 5 && "dtake"@[0] == 'd');
    assert("ltake"@.len() == 5 && "ltake"@[0] == 'l' && "ltake"@[1] == 't');
    assert("gather2d"@.len() == 8 && "gather2d"@[0] == 'g');
    assert("where-pos"@.len() == 9 && "where-pos"@[0] == 'w');
    assert("where-lt"@.len() == 8 && "where-lt"@[0] == 'w');
    assert("stack"@.len() == 5 && "stack"@[0] == 's');
    assert("expand-stride"@.len() == 13 && "expand-stride"@[7] == 's');
    assert("to-longs"@.len() == 8 && "to-longs"@[0] == 't');
    assert("to-doubles"@.len() == 10 && "to-doubles"@[0] == 't');
}

/// How many arguments each array function takes.
pub proof fn law_array_arities(op: FloatOp)
    ensures
        array_arity(ArrayOp::Zip(op)) == 2,
        array_arity(ArrayOp::Unary(op)) == 1,
        array_arity(ArrayOp::Round) == 2,
        array_arity(ArrayOp::Cumsum) == 1,
        array_arity(ArrayOp::Sum) == 1,
        array_arity(ArrayOp::Lag) == 2,
        array_arity(ArrayOp::Stride) == 2,
        array_arity(ArrayOp::Constant) == 2,
        array_arity(ArrayOp::Iota) == 2,
        array_arity(ArrayOp::LclampMin) == 2,
        array_arity(ArrayOp::ExpandCounts) == 1,
        array_arity(ArrayOp::Dtake) == 2,
        array_arity(ArrayOp::Ltake) == 2,
        array_arity(ArrayOp::Gather2d) == 4,
        array_arity(ArrayOp::WherePos) == 1,
        array_arity(ArrayOp::WhereLt) == 4,
        array_arity(ArrayOp::Stack) == 2,
        array_arity(ArrayOp::ExpandStride) == 3,
        array_arity(ArrayOp::ToLongs) == 1,
        array_arity(ArrayOp::ToDoubles) == 1,
{
}

/// A result that is an array of doubles of a length.
pub open spec fn is_array(r: Result<Val, Seq<char>>, n: nat) -> bool {
    r matches Ok(Val::DoubleArray(out)) && out.len() == n
}

/// An operation on two arrays or on an array and a number pairs each element with the other array's
/// element at its position, or with the number; arrays of different lengths are refused.
pub proof fn law_elementwise<F: Fn(FloatOp, u64, u64) -> u64>(
    math: F,
    op: FloatOp,
    xs: Seq<u64>,
    ys: Seq<u64>,
    y: u64,
    r: Result<Val, Seq<char>>,
)
    ensures
        array_result(math, ArrayOp::Zip(op), seq![Val::DoubleArray(xs), Val::DoubleArray(ys)], r)
            && xs.len() == ys.len() ==> {
            &&& is_array(r, xs.len())
            &&& forall|i: int|
                0 <= i < xs.len() ==> gives_double(
                    math,
                    op,
                    xs[i],
                    ys[i],
                    #[trigger] r->Ok_0->DoubleArray_0[i],
                )
        },
        array_result(math, ArrayOp::Zip(op), seq![Val::DoubleArray(xs), Val::DoubleArray(ys)], r)
            && xs.len() != ys.len() ==> r is Err,
        array_result(math, ArrayOp::Zip(op), seq![Val::DoubleArray(xs), Val::Double(y)], r) ==> {
            &&& is_array(r, xs.len())
            &&& forall|i: int|
                0 <= i < xs.len() ==> gives_double(
                    math,
                    op,
                    xs[i],
                    y,
                    #[trigger] r->Ok_0->DoubleArray_0[i],
                )
        },
{
}

/// An operation on each element of an array gives the results in the array's order.
pub proof fn law_each_element<F: Fn(FloatOp, u64, u64) -> u64>(
    math: F,
    op: FloatOp,
    xs: Seq<u64>,
    r: Result<Val, Seq<char>>,
)
    ensures
        array_result(math, ArrayOp::Unary(op), seq![Val::DoubleArray(xs)], r) ==> {
            &&& is_array(r, xs.len())
            &&& forall|i: int|
                0 <= i < xs.len() ==> gives_double(
                    math,
                    op,
                    xs[i],
                    0,
                    #[trigger] r->Ok_0->DoubleArray_0[i],
                )
        },
{
}

/// Running sums add each element to the sum before it.
pub proof fn law_running_sums<F: Fn(FloatOp, u64, u64) -> u64>(
    math: F,
    xs: Seq<u64>,
    r: Result<Val, Seq<char>>,
    i: int,
)
    requires
        array_result(math, ArrayOp::Cumsum, seq![Val::DoubleArray(xs)], r),
    ensures
        is_array(r, xs.len()),
        0 < i < xs.len() ==> gives_double(
            math,
            FloatOp::Plus,
            r->Ok_0->DoubleArray_0[i - 1],
            xs[i],
            r->Ok_0->DoubleArray_0[i],
        ),
        xs.len() > 0 ==> gives_double(
            math,
            FloatOp::Plus,
            0,
            xs[0],
            r->Ok_0->DoubleArray_0[0],
        ),
{
    if 0 <= i < xs.len() {
        assert(gives_double(
            math,
            FloatOp::Plus,
            if i == 0 {
                0
            } else {
                r->Ok_0->DoubleArray_0[i - 1]
            },
            xs[i],
            r->Ok_0->DoubleArray_0[i],
        ));
    }
    if xs.len() > 0 {
        let out = r->Ok_0->DoubleArray_0;
        assert(out[0] == out[0]);
    }
}

/// A lag starts with its seed and then repeats the array, one step later; strides, constants, counts
/// and clamps are what their names say.
pub proof fn law_plain_calls<F: Fn(FloatOp, u64, u64) -> u64>(
    math: F,
    xs: Seq<u64>,
    ls: Seq<i64>,
    seed: u64,
    n: i64,
    k: i64,
    r: Result<Val, Seq<char>>,
    i: int,
)
    ensures
        array_result(math, ArrayOp::Lag, seq![Val::DoubleArray(xs), Val::Double(seed)], r) ==> {
            &&& is_array(r, xs.len())
            &&& xs.len() > 0 ==> r->Ok_0->DoubleArray_0[0] == seed
            &&& 0 < i < xs.len() ==> r->Ok_0->DoubleArray_0[i] == xs[i - 1]
        },
        array_result(math, ArrayOp::Stride, seq![Val::DoubleArray(xs), Val::Long(k)], r) ==> {
            &&& k <= 0 <==> r is Err
            &&& k > 0 ==> (r matches Ok(Val::DoubleArray(out)) && {
                &&& out.len() * k >= xs.len()
                &&& 0 <= i < out.len() ==> i * k < xs.len() && out[i] == xs[i * k]
            })
        },
        array_result(math, ArrayOp::Constant, seq![Val::Long(n), Val::Double(seed)], r) ==> {
            &&& n < 0 <==> r is Err
            &&& n >= 0 ==> is_array(r, n as nat)
            &&& 0 <= i < n ==> r->Ok_0->DoubleArray_0[i] == seed
        },
        array_result(math, ArrayOp::Iota, seq![Val::Long(n), Val::Long(k)], r) && k + n
            <= i64::MAX ==> {
            &&& n < 0 <==> r is Err
            &&& n >= 0 ==> (r matches Ok(Val::LongArray(out)) && {
                &&& out.len() == n
                &&& 0 <= i < n ==> out[i] == k + i
            })
        },
        array_result(math, ArrayOp::LclampMin, seq![Val::LongArray(ls), Val::Long(k)], r) ==> (
        r matches Ok(Val::LongArray(out)) && {
            &&& out.len() == ls.len()
            &&& 0 <= i < ls.len() ==> out[i] >= ls[i] && out[i] >= k && (out[i] == ls[i] || out[i]
                == k)
        }),
{
    law_lag(xs, seed);
    if 0 < i < xs.len() {
        assert(xs[i - 1] == xs[i - 1]);
    }
    if k > 0 {
        law_strides(xs, k as int);
        let s = crate::kernels::strided(xs, k as int);
        if 0 <= i < s.len() {
            assert(s[i] == xs[i * k]);
            assert(i * (k as int) < xs.len());
        }
    }
}

/// Taking by positions gives the element at each position, and is refused exactly where a position
/// is not one of the array.
pub proof fn law_taking<F: Fn(FloatOp, u64, u64) -> u64>(
    math: F,
    xs: Seq<u64>,
    ls: Seq<i64>,
    at: Seq<i64>,
    r: Result<Val, Seq<char>>,
)
    ensures
        array_result(math, ArrayOp::Dtake, seq![Val::DoubleArray(xs), Val::LongArray(at)], r) ==> {
            &&& r is Ok <==> forall|i: int| 0 <= i < at.len() ==> 0 <= #[trigger] at[i] < xs.len()
            &&& r is Ok ==> is_array(r, at.len()) && forall|i: int|
                0 <= i < at.len() ==> r->Ok_0->DoubleArray_0[i] == xs[#[trigger] at[i] as int]
        },
        array_result(math, ArrayOp::Ltake, seq![Val::LongArray(ls), Val::LongArray(at)], r) ==> {
            &&& r is Ok <==> forall|i: int| 0 <= i < at.len() ==> 0 <= #[trigger] at[i] < ls.len()
            &&& r matches Ok(v) ==> v is LongArray && v->LongArray_0.len() == at.len()
                && forall|i: int|
                0 <= i < at.len() ==> v->LongArray_0[i] == ls[#[trigger] at[i] as int]
        },
{
    law_index_errors("dtake"@, at, xs.len());
    law_index_errors("ltake"@, at, ls.len());
}

/// A selection takes the first value where the element is below the threshold, and the second
/// elsewhere.
pub proof fn law_selection<F: Fn(FloatOp, u64, u64) -> u64>(
    math: F,
    xs: Seq<u64>,
    t: u64,
    a: u64,
    b: u64,
    r: Result<Val, Seq<char>>,
    i: int,
)
    requires
        array_result(
            math,
            ArrayOp::WhereLt,
            seq![Val::DoubleArray(xs), Val::Double(t), Val::Double(a), Val::Double(b)],
            r,
        ),
    ensures
        is_array(r, xs.len()),
        0 <= i < xs.len() && double_less(xs[i], t) ==> r->Ok_0->DoubleArray_0[i] == a,
        0 <= i < xs.len() && !double_less(xs[i], t) ==> r->Ok_0->DoubleArray_0[i] == b,
{
    if 0 <= i < xs.len() {
        assert(r->Ok_0->DoubleArray_0[i] == r->Ok_0->DoubleArray_0[i]);
    }
}

/// Conversions keep the positions: to longs by truncation, to doubles by the nearest.
pub proof fn law_conversions<F: Fn(FloatOp, u64, u64) -> u64>(
    math: F,
    xs: Seq<u64>,
    ls: Seq<i64>,
    r: Result<Val, Seq<char>>,
    i: int,
)
    ensures
        array_result(math, ArrayOp::ToLongs, seq![Val::DoubleArray(xs)], r) ==> (r matches Ok(
            Val::LongArray(out),
        ) && out.len() == xs.len() && (0 <= i < xs.len() ==> out[i] == truncated(xs[i]))),
        array_result(math, ArrayOp::ToDoubles, seq![Val::LongArray(ls)], r) ==> is_array(
            r,
            ls.len(),
        ) && (0 <= i < ls.len() ==> is_double_of_long(
            r->Ok_0->DoubleArray_0[i],
            ls[i] as int,
        )),
{
}

} // verus!
