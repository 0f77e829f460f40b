//! Calls of the array functions of the numeric namespace: which kernel a name stands for, what it
//! takes, and what it comes to.

use vstd::prelude::*;
use crate::doubles::{is_double_of_long, truncated, SIGN_BIT};
use crate::float_math::{gives_double, total_math};
use crate::float_math::FloatOp;
use crate::kernels::{
    bad_shape, chosen, complains, counts_expanded, doubles_of, gathered, index_error, is_operand,
    kernel_view, lagged, larger_long, longs_of, negative_length, not_positive, operand_at,
    partial_sums, positive_positions, select_error, spread, stacked, strided, yields, zip_error, OperandView,
};
use crate::kernels::{
    constant, cumsum, dtake, expand_counts, expand_stride, gather2d, iota, lag, lclamp_min, ltake,
    map_unary, round, stack, stride, sum, to_doubles, to_longs, where_lt, where_pos, zip_with,
};
use crate::num::{integer_arg, number_arg};
use crate::num::{f64_arg, i64_arg};
use crate::text::same_text;
use crate::value::{kind_of, vals, Val};
use crate::value::Value;

verus! {

/// An array function.
#[derive(Clone, Copy, Debug, PartialEq, Eq, Structural)]
pub enum ArrayOp {
    /// An operation on an array and an operand, element by element.
    Zip(FloatOp),
    /// An operation on each element of an array.
    Unary(FloatOp),
    Round,
    Cumsum,
    Sum,
    Lag,
    Stride,
    Constant,
    Iota,
    LclampMin,
    ExpandCounts,
    Dtake,
    Ltake,
    Gather2d,
    WherePos,
    WhereLt,
    Stack,
    ExpandStride,
    ToLongs,
    ToDoubles,
}

/// The elementwise operation that a name stands for.
pub open spec fn float_op_named(name: Seq<char>) -> Option<ArrayOp> {
    if name == "add"@ {
        Some(ArrayOp::Zip(FloatOp::Plus))
    } else if name == "sub"@ {
        Some(ArrayOp::Zip(FloatOp::Minus))
    } else if name == "mul"@ {
        Some(ArrayOp::Zip(FloatOp::Times))
    } else if name == "div"@ {
        Some(ArrayOp::Zip(FloatOp::Over))
    } else if name == "emax"@ || name == "clamp-min"@ {
        Some(ArrayOp::Zip(FloatOp::Max))
    } else if name == "emin"@ || name == "clamp-max"@ {
        Some(ArrayOp::Zip(FloatOp::Min))
    } else if name == "exp"@ {
        Some(ArrayOp::Unary(FloatOp::Exp))
    } else if name == "log"@ {
        Some(ArrayOp::Unary(FloatOp::Ln))
    } else if name == "log1p"@ {
        Some(ArrayOp::Unary(FloatOp::Ln1p))
    } else if name == "sqrt"@ {
        Some(ArrayOp::Unary(FloatOp::Sqrt))
    } else if name == "abs"@ {
        Some(ArrayOp::Unary(FloatOp::Abs))
    } else if name == "neg"@ {
        Some(ArrayOp::Unary(FloatOp::Neg))
    } else {
        None
    }
}

/// The array function that a name stands for.
pub open spec fn array_op_named(name: Seq<char>) -> Option<ArrayOp> {
    if float_op_named(name) is Some {
        float_op_named(name)
    } else if name == "round"@ {
        Some(ArrayOp::Round)
    } else if name == "cumsum"@ {
        Some(ArrayOp::Cumsum)
    } else if name == "sum"@ {
        Some(ArrayOp::Sum)
    } else if name == "lag"@ {
        Some(ArrayOp::Lag)
    } else if name == "stride"@ {
        Some(ArrayOp::Stride)
    } else if name == "constant"@ {
        Some(ArrayOp::Constant)
    } else if name == "iota"@ {
        Some(ArrayOp::Iota)
    } else if name == "lclamp-min"@ {
        Some(ArrayOp::LclampMin)
    } else if name == "expand-counts"@ {
        Some(ArrayOp::ExpandCounts)
    } else if name == "dtake"@ {
        Some(ArrayOp::Dtake)
    } else if name == "ltake"@ {
        Some(ArrayOp::Ltake)
    } else if name == "gather2d"@ {
        Some(ArrayOp::Gather2d)
    } else if name == "where-pos"@ {
        Some(ArrayOp::WherePos)
    } else if name == "where-lt"@ {
        Some(ArrayOp::WhereLt)
    } else if name == "stack"@ {
        Some(ArrayOp::Stack)
    } else if name == "expand-stride"@ {
        Some(ArrayOp::ExpandStride)
    } else if name == "to-longs"@ {
        Some(ArrayOp::ToLongs)
    } else if name == "to-doubles"@ {
        Some(ArrayOp::ToDoubles)
    } else {
        None
    }
}

fn float_op(name: &str) -> (r: Option<ArrayOp>)
    ensures
        r == float_op_named(name@),
{
    if same_text(name, "add") {
        Some(ArrayOp::Zip(FloatOp::Plus))
    } else if same_text(name, "sub") {
        Some(ArrayOp::Zip(FloatOp::Minus))
    } else if same_text(name, "mul") {
        Some(ArrayOp::Zip(FloatOp::Times))
    } else if same_text(name, "div") {
        Some(ArrayOp::Zip(FloatOp::Over))
    } else if same_text(name, "emax") || same_text(name, "clamp-min") {
        Some(ArrayOp::Zip(FloatOp::Max))
    } else if same_text(name, "emin") || same_text(name, "clamp-max") {
        Some(ArrayOp::Zip(FloatOp::Min))
    } else if same_text(name, "exp") {
        Some(ArrayOp::Unary(FloatOp::Exp))
    } else if same_text(name, "log") {
        Some(ArrayOp::Unary(FloatOp::Ln))
    } else if same_text(name, "log1p") {
        Some(ArrayOp::Unary(FloatOp::Ln1p))
    } else if same_text(name, "sqrt") {
        Some(ArrayOp::Unary(FloatOp::Sqrt))
    } else if same_text(name, "abs") {
        Some(ArrayOp::Unary(FloatOp::Abs))
    } else if same_text(name, "neg") {
        Some(ArrayOp::Unary(FloatOp::Neg))
    } else {
        None
    }
}

/// The array function that a name stands for.
pub fn array_op(name: &str) -> (r: Option<ArrayOp>)
    ensures
        r == array_op_named(name@),
{
    let elementwise = float_op(name);
    if elementwise.is_some() {
        elementwise
    } else if same_text(name, "round") {
        Some(ArrayOp::Round)
    } else if same_text(name, "cumsum") {
        Some(ArrayOp::Cumsum)
    } else if same_text(name, "sum") {
        Some(ArrayOp::Sum)
    } else if same_text(name, "lag") {
        Some(ArrayOp::Lag)
    } else if same_text(name, "stride") {
        Some(ArrayOp::Stride)
    } else if same_text(name, "constant") {
        Some(ArrayOp::Constant)
    } else if same_text(name, "iota") {
        Some(ArrayOp::Iota)
    } else if same_text(name, "lclamp-min") {
        Some(ArrayOp::LclampMin)
    } else if same_text(name, "expand-counts") {
        Some(ArrayOp::ExpandCounts)
    } else if same_text(name, "dtake") {
        Some(ArrayOp::Dtake)
    } else if same_text(name, "ltake") {
        Some(ArrayOp::Ltake)
    } else if same_text(name, "gather2d") {
        Some(ArrayOp::Gather2d)
    } else if same_text(name, "where-pos") {
        Some(ArrayOp::WherePos)
    } else if same_text(name, "where-lt") {
        Some(ArrayOp::WhereLt)
    } else if same_text(name, "stack") {
        Some(ArrayOp::Stack)
    } else if same_text(name, "expand-stride") {
        Some(ArrayOp::ExpandStride)
    } else if same_text(name, "to-longs") {
        Some(ArrayOp::ToLongs)
    } else if same_text(name, "to-doubles") {
        Some(ArrayOp::ToDoubles)
    } else {
        None
    }
}

/// How many arguments an array function takes.
pub open spec fn array_arity(op: ArrayOp) -> nat {
    match op {
        ArrayOp::Unary(_) | ArrayOp::Cumsum | ArrayOp::Sum | ArrayOp::ExpandCounts | ArrayOp::WherePos
        | ArrayOp::ToLongs | ArrayOp::ToDoubles => 1,
        ArrayOp::ExpandStride => 3,
        ArrayOp::Gather2d | ArrayOp::WhereLt => 4,
        _ => 2,
    }
}

impl ArrayOp {
    /// How many arguments the function takes.
    pub fn arity(&self) -> (r: usize)
        ensures
            r == array_arity(*self),
    {
        match self {
            ArrayOp::Unary(_) | ArrayOp::Cumsum | ArrayOp::Sum | ArrayOp::ExpandCounts | ArrayOp::WherePos
            | ArrayOp::ToLongs | ArrayOp::ToDoubles => 1,
            ArrayOp::ExpandStride => 3,
            ArrayOp::Gather2d | ArrayOp::WhereLt => 4,
            _ => 2,
        }
    }
}

/// `r` is the elementwise result of an operation on an array and an operand.
pub open spec fn zip_result<F: Fn(FloatOp, u64, u64) -> u64>(
    math: F,
    op: FloatOp,
    a: Val,
    b: Val,
    r: Result<Val, Seq<char>>,
) -> bool {
    match zip_error(a, b) {
        Some(e) => r == complains(e),
        None => {
            &&& r matches Ok(Val::DoubleArray(out))
            &&& out.len() == a->DoubleArray_0.len()
            &&& exists|o: OperandView|
                {
                    &&& #[trigger] is_operand(b, o)
                    &&& forall|i: int|
                        0 <= i < out.len() ==> gives_double(
                            math,
                            op,
                            a->DoubleArray_0[i],
                            operand_at(o, i),
                            #[trigger] out[i],
                        )
                }
        },
    }
}

/// `r` is the result of an operation on each double of an array, with a fixed second operand.
pub open spec fn each_result<F: Fn(FloatOp, u64, u64) -> u64>(
    math: F,
    op: FloatOp,
    a: Val,
    second: u64,
    r: Result<Val, Seq<char>>,
) -> bool {
    match doubles_of(a) {
        Err(e) => r == complains(e),
        Ok(xs) => {
            &&& r matches Ok(Val::DoubleArray(out))
            &&& out.len() == xs.len()
            &&& forall|i: int|
                0 <= i < xs.len() ==> gives_double(math, op, xs[i], second, #[trigger] out[i])
        },
    }
}

/// `r` holds the running sums of an array.
pub open spec fn sums_result<F: Fn(FloatOp, u64, u64) -> u64>(
    math: F,
    a: Val,
    r: Result<Val, Seq<char>>,
) -> bool {
    match doubles_of(a) {
        Err(e) => r == complains(e),
        Ok(xs) => {
            &&& r matches Ok(Val::DoubleArray(out))
            &&& out.len() == xs.len()
            &&& forall|i: int|
                0 <= i < xs.len() ==> gives_double(
                    math,
                    FloatOp::Plus,
                    if i == 0 {
                        0
                    } else {
                        out[i - 1]
                    },
                    xs[i],
                    #[trigger] out[i],
                )
        },
    }
}

/// `sums` holds the sums of the first doubles, of none to all, from minus zero.
pub open spec fn added_up<F: Fn(FloatOp, u64, u64) -> u64>(
    math: F,
    xs: Seq<u64>,
    sums: Seq<u64>,
) -> bool {
    &&& sums.len() == xs.len() + 1
    &&& sums[0] == SIGN_BIT
    &&& forall|i: int|
        0 <= i < xs.len() ==> gives_double(
            math,
            FloatOp::Plus,
            sums[i],
            #[trigger] xs[i],
            sums[i + 1],
        )
}

/// `r` is the sum of an array, from the left.
pub open spec fn sum_result<F: Fn(FloatOp, u64, u64) -> u64>(
    math: F,
    a: Val,
    r: Result<Val, Seq<char>>,
) -> bool {
    match doubles_of(a) {
        Err(e) => r == complains(e),
        Ok(xs) => {
            &&& r matches Ok(Val::Double(total))
            &&& exists|sums: Seq<u64>| #[trigger] added_up(math, xs, sums) && sums.last() == total
        },
    }
}

/// `r` holds, of two operands, the one or the other by a threshold.
pub open spec fn select_result(a: Val, t: u64, th: Val, el: Val, r: Result<Val, Seq<char>>) -> bool {
    match select_error(a, th, el) {
        Some(e) => r == complains(e),
        None => {
            &&& r matches Ok(Val::DoubleArray(out))
            &&& a is DoubleArray
            &&& exists|x: OperandView, y: OperandView|
                #![trigger is_operand(th, x), is_operand(el, y)]
                is_operand(th, x) && is_operand(el, y) && chosen(a->DoubleArray_0, t, x, y, out)
        },
    }
}

/// `r` holds the doubles of an array, truncated.
pub open spec fn longs_result(a: Val, r: Result<Val, Seq<char>>) -> bool {
    match doubles_of(a) {
        Err(e) => r == complains(e),
        Ok(xs) => {
            &&& r matches Ok(Val::LongArray(out))
            &&& out.len() == xs.len()
            &&& forall|i: int| 0 <= i < xs.len() ==> #[trigger] out[i] == truncated(xs[i])
        },
    }
}

/// `r` holds the doubles nearest to the longs of an array.
pub open spec fn doubles_result(a: Val, r: Result<Val, Seq<char>>) -> bool {
    match longs_of(a) {
        Err(e) => r == complains(e),
        Ok(xs) => {
            &&& r matches Ok(Val::DoubleArray(out))
            &&& out.len() == xs.len()
            &&& forall|i: int|
                0 <= i < xs.len() ==> is_double_of_long(#[trigger] out[i], xs[i] as int)
        },
    }
}

/// The doubles of an array, one step later.
pub open spec fn lag_result(args: Seq<Val>) -> Result<Val, Seq<char>> {
    match number_arg(args, 1) {
        Err(e) => complains(e),
        Ok(seed) => match doubles_of(args[0]) {
            Ok(xs) => yields(Val::DoubleArray(lagged(xs, seed))),
            Err(e) => complains(e),
        },
    }
}

/// Every so-manieth double of an array.
pub open spec fn stride_result(args: Seq<Val>) -> Result<Val, Seq<char>> {
    match integer_arg(args, 1) {
        Err(e) => complains(e),
        Ok(k) => if k <= 0 {
            complains(not_positive("stride"@, k))
        } else {
            match doubles_of(args[0]) {
                Ok(xs) => yields(Val::DoubleArray(strided(xs, k as int))),
                Err(e) => complains(e),
            }
        },
    }
}

/// An array of one double.
pub open spec fn constant_result(args: Seq<Val>) -> Result<Val, Seq<char>> {
    match (integer_arg(args, 0), number_arg(args, 1)) {
        (Err(e), _) => complains(e),
        (Ok(_), Err(e)) => complains(e),
        (Ok(n), Ok(x)) => if n < 0 {
            complains(negative_length(n))
        } else {
            yields(Val::DoubleArray(Seq::new(n as nat, |i: int| x)))
        },
    }
}

/// Longs from a start.
pub open spec fn iota_result(args: Seq<Val>) -> Result<Val, Seq<char>> {
    match (integer_arg(args, 0), integer_arg(args, 1)) {
        (Err(e), _) => complains(e),
        (Ok(_), Err(e)) => complains(e),
        (Ok(n), Ok(start)) => if n < 0 {
            complains(negative_length(n))
        } else {
            yields(Val::LongArray(Seq::new(n as nat, |i: int| (start + i) as i64)))
        },
    }
}

/// The longs of an array, at least some long.
pub open spec fn clamp_result(args: Seq<Val>) -> Result<Val, Seq<char>> {
    match integer_arg(args, 1) {
        Err(e) => complains(e),
        Ok(x) => match longs_of(args[0]) {
            Ok(xs) => yields(Val::LongArray(xs.map_values(|v: i64| larger_long(v, x)))),
            Err(e) => complains(e),
        },
    }
}

/// The doubles at the given positions.
pub open spec fn dtake_result(args: Seq<Val>) -> Result<Val, Seq<char>> {
    match (doubles_of(args[0]), longs_of(args[1])) {
        (Err(e), _) => complains(e),
        (Ok(_), Err(e)) => complains(e),
        (Ok(xs), Ok(is)) => match index_error("dtake"@, is, xs.len()) {
            Some(e) => complains(e),
            None => yields(Val::DoubleArray(Seq::new(is.len(), |i: int| xs[is[i] as int]))),
        },
    }
}

/// The longs at the given positions.
pub open spec fn ltake_result(args: Seq<Val>) -> Result<Val, Seq<char>> {
    match (longs_of(args[0]), longs_of(args[1])) {
        (Err(e), _) => complains(e),
        (Ok(_), Err(e)) => complains(e),
        (Ok(xs), Ok(is)) => match index_error("ltake"@, is, xs.len()) {
            Some(e) => complains(e),
            None => yields(Val::LongArray(Seq::new(is.len(), |i: int| xs[is[i] as int]))),
        },
    }
}

/// The cells of a matrix at the given rows and columns.
pub open spec fn gather_result(args: Seq<Val>) -> Result<Val, Seq<char>> {
    match integer_arg(args, 3) {
        Err(e) => complains(e),
        Ok(row_len) => if row_len <= 0 {
            complains(not_positive("row-len"@, row_len))
        } else {
            match (doubles_of(args[0]), longs_of(args[1]), longs_of(args[2])) {
                (Err(e), _, _) => complains(e),
                (Ok(_), Err(e), _) => complains(e),
                (Ok(_), Ok(_), Err(e)) => complains(e),
                (Ok(m), Ok(rs), Ok(cs)) => gathered(m, rs, cs, row_len as int),
            }
        },
    }
}

/// The rows of a matrix in one array.
pub open spec fn stack_result(args: Seq<Val>) -> Result<Val, Seq<char>> {
    match integer_arg(args, 1) {
        Err(e) => complains(e),
        Ok(row_len) => if row_len <= 0 {
            complains(not_positive("row-len"@, row_len))
        } else {
            match args[0] {
                Val::Vector(items) => match stacked(items, row_len as nat) {
                    Ok(m) => yields(Val::DoubleArray(m)),
                    Err(e) => complains(e),
                },
                other => complains("rows must be a vector, got "@ + kind_of(other)),
            }
        },
    }
}

/// The doubles of an array, spread out.
pub open spec fn spread_result(args: Seq<Val>) -> Result<Val, Seq<char>> {
    match (integer_arg(args, 1), integer_arg(args, 2)) {
        (Err(e), _) => complains(e),
        (Ok(_), Err(e)) => complains(e),
        (Ok(k), Ok(n)) => if k <= 0 || n < 0 {
            complains(bad_shape(k, n))
        } else {
            match doubles_of(args[0]) {
                Ok(xs) => yields(Val::DoubleArray(spread(xs, k as int, n as nat))),
                Err(e) => complains(e),
            }
        },
    }
}

/// The longs that count up from an argument are all longs.
pub open spec fn countable(op: ArrayOp, args: Seq<Val>) -> bool {
    op is Iota ==> match (args[0], args[1]) {
        (Val::Long(n), Val::Long(start)) => n >= 0 ==> start + n <= i64::MAX,
        _ => true,
    }
}

/// The number of decimal places as the arithmetic takes it: the long's low bits, sign and all.
pub open spec fn places_of(decimals: i64) -> u64 {
    (decimals as i32) as u64
}

/// `r` is what a call of an array function comes to.
pub open spec fn array_result<F: Fn(FloatOp, u64, u64) -> u64>(
    math: F,
    op: ArrayOp,
    args: Seq<Val>,
    r: Result<Val, Seq<char>>,
) -> bool {
    match op {
        ArrayOp::Zip(f) => zip_result(math, f, args[0], args[1], r),
        ArrayOp::Unary(f) => each_result(math, f, args[0], 0, r),
        ArrayOp::Round => match integer_arg(args, 1) {
            Err(e) => r == complains(e),
            Ok(d) => each_result(math, FloatOp::RoundTo, args[0], places_of(d), r),
        },
        ArrayOp::Cumsum => sums_result(math, args[0], r),
        ArrayOp::Sum => sum_result(math, args[0], r),
        ArrayOp::Lag => r == lag_result(args),
        ArrayOp::Stride => r == stride_result(args),
        ArrayOp::Constant => r == constant_result(args),
        ArrayOp::Iota => r == iota_result(args),
        ArrayOp::LclampMin => r == clamp_result(args),
        ArrayOp::ExpandCounts => r == (match longs_of(args[0]) {
            Ok(cs) => yields(Val::LongArray(counts_expanded(cs))),
            Err(e) => complains(e),
        }),
        ArrayOp::Dtake => r == dtake_result(args),
        ArrayOp::Ltake => r == ltake_result(args),
        ArrayOp::Gather2d => r == gather_result(args),
        ArrayOp::WherePos => r == (match doubles_of(args[0]) {
            Ok(xs) => yields(Val::LongArray(positive_positions(xs))),
            Err(e) => complains(e),
        }),
        ArrayOp::WhereLt => match number_arg(args, 1) {
            Err(e) => r == complains(e),
            Ok(t) => select_result(args[0], t, args[2], args[3], r),
        },
        ArrayOp::Stack => r == stack_result(args),
        ArrayOp::ExpandStride => r == spread_result(args),
        ArrayOp::ToLongs => longs_result(args[0], r),
        ArrayOp::ToDoubles => doubles_result(args[0], r),
    }
}

/// The operation on two doubles.
fn apply<F: Fn(FloatOp, u64, u64) -> u64>(math: &F, op: FloatOp, a: u64, b: u64) -> (r: u64)
    requires
        total_math(*math),
    ensures
        gives_double(*math, op, a, b, r),
{
    assert(call_requires(*math, (op, a, b)));
    math(op, a, b)
}

/// Elementwise operation on an array and an operand.
fn zip_call<F: Fn(FloatOp, u64, u64) -> u64>(op: FloatOp, a: &Value, b: &Value, math: &F) -> (r:
    Result<Value, String>)
    requires
        total_math(*math),
    ensures
        zip_result(*math, op, a.view(), b.view(), kernel_view(r)),
{
    let f = |x: u64, y: u64| -> (out: u64)
        ensures
            gives_double(*math, op, x, y, out),
        {
            apply(math, op, x, y)
        };
    let r = zip_with(a, b, f);
    proof {
        if r is Ok {
            let out = r->Ok_0.view()->DoubleArray_0;
            let o = choose|o: OperandView|
                {
                    &&& #[trigger] is_operand(b.view(), o)
                    &&& forall|i: int|
                        0 <= i < out.len() ==> call_ensures(
                            f,
                            (a.view()->DoubleArray_0[i], operand_at(o, i)),
                            #[trigger] out[i],
                        )
                };
            assert(is_operand(b.view(), o));
            assert forall|i: int| 0 <= i < out.len() implies gives_double(
                *math,
                op,
                a.view()->DoubleArray_0[i],
                operand_at(o, i),
                #[trigger] out[i],
            ) by {
                assert(call_ensures(f, (a.view()->DoubleArray_0[i], operand_at(o, i)), out[i]));
            }
        }
    }
    r
}

/// An operation on each double of an array, with a fixed second operand.
fn each_call<F: Fn(FloatOp, u64, u64) -> u64>(op: FloatOp, a: &Value, second: u64, math: &F) -> (r:
    Result<Value, String>)
    requires
        total_math(*math),
    ensures
        each_result(*math, op, a.view(), second, kernel_view(r)),
{
    let f = |x: u64| -> (out: u64)
        ensures
            gives_double(*math, op, x, second, out),
        {
            apply(math, op, x, second)
        };
    let r = map_unary(a, f);
    proof {
        if r is Ok {
            let out = r->Ok_0.view()->DoubleArray_0;
            let xs = doubles_of(a.view())->Ok_0;
            assert forall|i: int| 0 <= i < xs.len() implies gives_double(
                *math,
                op,
                xs[i],
                second,
                #[trigger] out[i],
            ) by {
                assert(call_ensures(f, (xs[i],), out[i]));
            }
        }
    }
    r
}

/// Round each double of an array.
fn round_call<F: Fn(FloatOp, u64, u64) -> u64>(a: &Value, decimals: i64, math: &F) -> (r: Result<
    Value,
    String,
>)
    requires
        total_math(*math),
    ensures
        each_result(*math, FloatOp::RoundTo, a.view(), places_of(decimals), kernel_view(r)),
{
    let f = |x: u64, d: i32| -> (out: u64)
        ensures
            gives_double(*math, FloatOp::RoundTo, x, d as u64, out),
        {
            let places: u64 = d as u64;
            apply(math, FloatOp::RoundTo, x, places)
        };
    let r = round(a, decimals, f);
    proof {
        if r is Ok {
            let out = r->Ok_0.view()->DoubleArray_0;
            let xs = doubles_of(a.view())->Ok_0;
            assert forall|i: int| 0 <= i < xs.len() implies gives_double(
                *math,
                FloatOp::RoundTo,
                xs[i],
                places_of(decimals),
                #[trigger] out[i],
            ) by {
                assert(call_ensures(f, (xs[i], decimals as i32), out[i]));
            }
        }
    }
    r
}

/// The running sums of an array.
fn cumsum_call<F: Fn(FloatOp, u64, u64) -> u64>(a: &Value, math: &F) -> (r: Result<Value, String>)
    requires
        total_math(*math),
    ensures
        sums_result(*math, a.view(), kernel_view(r)),
{
    let f = |x: u64, y: u64| -> (out: u64)
        ensures
            gives_double(*math, FloatOp::Plus, x, y, out),
        {
            apply(math, FloatOp::Plus, x, y)
        };
    cumsum(a, f)
}

/// The sum of an array.
fn sum_call<F: Fn(FloatOp, u64, u64) -> u64>(a: &Value, math: &F) -> (r: Result<Value, String>)
    requires
        total_math(*math),
    ensures
        sum_result(*math, a.view(), kernel_view(r)),
{
    let f = |x: u64, y: u64| -> (out: u64)
        ensures
            gives_double(*math, FloatOp::Plus, x, y, out),
        {
            apply(math, FloatOp::Plus, x, y)
        };
    match sum(a, f) {
        Ok(total) => {
            proof {
                let xs = doubles_of(a.view())->Ok_0;
                let sums = choose|sums: Seq<u64>| #[trigger]
                    partial_sums(f, xs, sums) && sums.last() == total;
                assert(partial_sums(f, xs, sums) && sums.last() == total);
                assert(added_up(*math, xs, sums)) by {
                    assert forall|i: int| 0 <= i < xs.len() implies gives_double(
                        *math,
                        FloatOp::Plus,
                        sums[i],
                        #[trigger] xs[i],
                        sums[i + 1],
                    ) by {
                        assert(call_ensures(f, (sums[i], xs[i]), sums[i + 1]));
                    }
                }
            }
            Ok(Value::Double(total))
        },
        Err(e) => Err(e),
    }
}

/// Call an array function that takes longs besides its arrays.
fn shape_call(op: ArrayOp, args: &[Value]) -> (r: Result<Value, String>)
    requires
        args@.len() == array_arity(op),
        op is Lag || op is Stride || op is Constant || op is Iota || op is LclampMin || op is Gather2d
            || op is Stack || op is ExpandStride,
        countable(op, vals(args@)),
    ensures
        kernel_view(r) == (match op {
            ArrayOp::Lag => lag_result(vals(args@)),
            ArrayOp::Stride => stride_result(vals(args@)),
            ArrayOp::Constant => constant_result(vals(args@)),
            ArrayOp::Iota => iota_result(vals(args@)),
            ArrayOp::LclampMin => clamp_result(vals(args@)),
            ArrayOp::Gather2d => gather_result(vals(args@)),
            ArrayOp::Stack => stack_result(vals(args@)),
            _ => spread_result(vals(args@)),
        }),
{
    let ghost all = vals(args@);
    assert(forall|i: int| 0 <= i < args@.len() ==> #[trigger] all[i] == args@[i].view());
    match op {
        ArrayOp::Lag => match f64_arg(args, 1) {
            Err(e) => Err(e),
            Ok(seed) => lag(&args[0], seed),
        },
        ArrayOp::Stride => match i64_arg(args, 1) {
            Err(e) => Err(e),
            Ok(k) => stride(&args[0], k),
        },
        ArrayOp::Constant => match i64_arg(args, 0) {
            Err(e) => Err(e),
            Ok(n) => match f64_arg(args, 1) {
                Err(e) => Err(e),
                Ok(x) => constant(n, x),
            },
        },
        ArrayOp::Iota => match i64_arg(args, 0) {
            Err(e) => Err(e),
            Ok(n) => match i64_arg(args, 1) {
                Err(e) => Err(e),
                Ok(start) => iota(n, start),
            },
        },
        ArrayOp::LclampMin => match i64_arg(args, 1) {
            Err(e) => Err(e),
            Ok(x) => lclamp_min(&args[0], x),
        },
        ArrayOp::Gather2d => match i64_arg(args, 3) {
            Err(e) => Err(e),
            Ok(row_len) => gather2d(&args[0], &args[1], &args[2], row_len),
        },
        ArrayOp::Stack => match i64_arg(args, 1) {
            Err(e) => Err(e),
            Ok(row_len) => stack(&args[0], row_len),
        },
        _ => match i64_arg(args, 1) {
            Err(e) => Err(e),
            Ok(k) => match i64_arg(args, 2) {
                Err(e) => Err(e),
                Ok(n) => expand_stride(&args[0], k, n),
            },
        },
    }
}

/// Call an array function.
pub fn call_array<F: Fn(FloatOp, u64, u64) -> u64>(op: ArrayOp, args: &[Value], math: &F) -> (r:
    Result<Value, String>)
    requires
        args@.len() == array_arity(op),
        countable(op, vals(args@)),
        total_math(*math),
    ensures
        array_result(*math, op, vals(args@), kernel_view(r)),
{
    let ghost all = vals(args@);
    assert(forall|i: int| 0 <= i < args@.len() ==> #[trigger] all[i] == args@[i].view());
    match op {
        ArrayOp::Zip(f) => zip_call(f, &args[0], &args[1], math),
        ArrayOp::Unary(f) => each_call(f, &args[0], 0, math),
        ArrayOp::Round => match i64_arg(args, 1) {
            Err(e) => Err(e),
            Ok(d) => round_call(&args[0], d, math),
        },
        ArrayOp::Cumsum => cumsum_call(&args[0], math),
        ArrayOp::Sum => sum_call(&args[0], math),
        ArrayOp::ExpandCounts => expand_counts(&args[0]),
        ArrayOp::Dtake => dtake(&args[0], &args[1]),
        ArrayOp::Ltake => ltake(&args[0], &args[1]),
        ArrayOp::WherePos => where_pos(&args[0]),
        ArrayOp::WhereLt => match f64_arg(args, 1) {
            Err(e) => Err(e),
            Ok(t) => where_lt(&args[0], t, &args[2], &args[3]),
        },
        ArrayOp::ToLongs => to_longs(&args[0]),
        ArrayOp::ToDoubles => to_doubles(&args[0]),
        _ => shape_call(op, args),
    }
}

} // verus!
