//! Calls into the numeric namespace by name: the arguments are taken apart, and the draw is made.
//! The array functions stand in [`crate::num_arrays`].

use vstd::prelude::*;
use crate::decimal::int_text;
use crate::decimal::push_int;
use crate::float_math::total_math;
use crate::float_math::FloatOp;
use crate::javamap::Native;
use crate::javamap::Heap;
use crate::kernels::{complains, kernel_view, longs_of, yields};
use crate::kernels::longs;
use crate::num::{draw_effect, drawable, integer_arg, number_arg, size_arg, text_arg};
use crate::num::{f64_arg, i64_arg, str_arg, usize_arg, with_rng, Draw};
use crate::rng::fnv1a;
use crate::rng::NumRng;
use crate::text::{push_text, same_text, text_copy};
use crate::value::{kind_of, lemma_views, vals, Val};
use crate::value::{values_copy, Value};

verus! {

// ---------------------------------------------------------------------------
// Random streams
// ---------------------------------------------------------------------------

/// A call of a random-stream function.
#[derive(Debug)]
pub enum RngCall {
    New { seed: i64, stream: String },
    Draw(Draw),
    /// Distinct indices below a bound for each of some counts.
    Groups { counts: Vec<i64>, m: usize },
}

/// What a [`RngCall`] holds.
pub enum RngRequest {
    New { seed: i64, stream: Seq<char> },
    Draw(Draw),
    Groups { counts: Seq<i64>, m: usize },
}

impl RngCall {
    pub open spec fn view(&self) -> RngRequest {
        match self {
            RngCall::New { seed, stream } => RngRequest::New { seed: *seed, stream: stream@ },
            RngCall::Draw(d) => RngRequest::Draw(*d),
            RngCall::Groups { counts, m } => RngRequest::Groups { counts: counts@, m: *m },
        }
    }
}

/// How many arguments a random-stream function takes; `None` for what is not one.
pub open spec fn rng_arity(name: Seq<char>) -> Option<nat> {
    if name == "next-double!"@ || name == "next-long!"@ {
        Some(1)
    } else if name == "rng"@ || name == "poisson!"@ {
        Some(2)
    } else if name == "integers!"@ || name == "uniform!"@ || name == "normal!"@ || name
        == "lognormal!"@ || name == "sample-idx!"@ || name == "fill-poisson!"@ || name
        == "sample-groups!"@ {
        Some(3)
    } else if name == "fill-normal!"@ || name == "fill-uniform!"@ || name == "fill-lognormal!"@
        || name == "fill-integers!"@ {
        Some(4)
    } else {
        None
    }
}

/// A range without a long.
pub open spec fn empty_range(lo: i64, hi: i64) -> Seq<char> {
    "empty range ["@ + int_text(lo as int) + ", "@ + int_text(hi as int) + ")"@
}

/// Two doubles of the arguments, the first error first.
pub open spec fn two_numbers(args: Seq<Val>, i: int) -> Result<(u64, u64), Seq<char>> {
    match (number_arg(args, i), number_arg(args, i + 1)) {
        (Err(e), _) => Err(e),
        (Ok(_), Err(e)) => Err(e),
        (Ok(a), Ok(b)) => Ok((a, b)),
    }
}

/// A range of the arguments, the first error first.
pub open spec fn range_args(args: Seq<Val>, i: int) -> Result<(i64, i64), Seq<char>> {
    match (integer_arg(args, i), integer_arg(args, i + 1)) {
        (Err(e), _) => Err(e),
        (Ok(_), Err(e)) => Err(e),
        (Ok(lo), Ok(hi)) => if hi <= lo {
            Err(empty_range(lo, hi))
        } else {
            Ok((lo, hi))
        },
    }
}

/// A size and two doubles of the arguments, the first error first.
pub open spec fn fill_args(args: Seq<Val>) -> Result<(usize, u64, u64), Seq<char>> {
    match size_arg(args, 1) {
        Err(e) => Err(e),
        Ok(n) => match two_numbers(args, 2) {
            Err(e) => Err(e),
            Ok((a, b)) => Ok((n as usize, a, b)),
        },
    }
}

/// What a call of a random-stream function asks for, or what is wrong with its arguments.
pub open spec fn rng_request(name: Seq<char>, args: Seq<Val>) -> Result<RngRequest, Seq<char>> {
    if name == "rng"@ {
        match (integer_arg(args, 0), text_arg(args, 1)) {
            (Err(e), _) => Err(e),
            (Ok(_), Err(e)) => Err(e),
            (Ok(seed), Ok(stream)) => Ok(RngRequest::New { seed, stream }),
        }
    } else if name == "poisson!"@ {
        match number_arg(args, 1) {
            Err(e) => Err(e),
            Ok(lambda) => Ok(RngRequest::Draw(Draw::Poisson { lambda })),
        }
    } else if name == "fill-poisson!"@ {
        match (size_arg(args, 1), number_arg(args, 2)) {
            (Err(e), _) => Err(e),
            (Ok(_), Err(e)) => Err(e),
            (Ok(n), Ok(lambda)) => Ok(
                RngRequest::Draw(Draw::FillPoisson { n: n as usize, lambda }),
            ),
        }
    } else if name == "sample-groups!"@ {
        match (longs_of(args[1]), size_arg(args, 2)) {
            (Err(e), _) => Err(e),
            (Ok(_), Err(e)) => Err(e),
            (Ok(counts), Ok(m)) => Ok(RngRequest::Groups { counts, m: m as usize }),
        }
    } else if name == "next-double!"@ {
        Ok(RngRequest::Draw(Draw::Double))
    } else if name == "next-long!"@ {
        Ok(RngRequest::Draw(Draw::Long))
    } else if name == "integers!"@ {
        match range_args(args, 1) {
            Err(e) => Err(e),
            Ok((lo, hi)) => Ok(RngRequest::Draw(Draw::Integers { lo, hi })),
        }
    } else if name == "uniform!"@ {
        match two_numbers(args, 1) {
            Err(e) => Err(e),
            Ok((lo, hi)) => Ok(RngRequest::Draw(Draw::Uniform { lo, hi })),
        }
    } else if name == "normal!"@ {
        match two_numbers(args, 1) {
            Err(e) => Err(e),
            Ok((mu, sigma)) => Ok(RngRequest::Draw(Draw::Normal { mu, sigma })),
        }
    } else if name == "lognormal!"@ {
        match two_numbers(args, 1) {
            Err(e) => Err(e),
            Ok((mu, sigma)) => Ok(RngRequest::Draw(Draw::Lognormal { mu, sigma })),
        }
    } else if name == "fill-normal!"@ {
        match fill_args(args) {
            Err(e) => Err(e),
            Ok((n, mu, sigma)) => Ok(RngRequest::Draw(Draw::FillNormal { n, mu, sigma })),
        }
    } else if name == "fill-uniform!"@ {
        match fill_args(args) {
            Err(e) => Err(e),
            Ok((n, lo, hi)) => Ok(RngRequest::Draw(Draw::FillUniform { n, lo, hi })),
        }
    } else if name == "fill-lognormal!"@ {
        match fill_args(args) {
            Err(e) => Err(e),
            Ok((n, mu, sigma)) => Ok(RngRequest::Draw(Draw::FillLognormal { n, mu, sigma })),
        }
    } else if name == "sample-idx!"@ {
        match (size_arg(args, 1), size_arg(args, 2)) {
            (Err(e), _) => Err(e),
            (Ok(_), Err(e)) => Err(e),
            (Ok(n), Ok(m)) => Ok(
                RngRequest::Draw(Draw::SampleIdx { n: n as usize, m: m as usize }),
            ),
        }
    } else {
        match size_arg(args, 1) {
            Err(e) => Err(e),
            Ok(n) => match range_args(args, 2) {
                Err(e) => Err(e),
                Ok((lo, hi)) => Ok(
                    RngRequest::Draw(Draw::FillIntegers { n: n as usize, lo, hi }),
                ),
            },
        }
    }
}

/// The view of a pair or an error.
pub open spec fn pair_view<T>(r: Result<T, String>) -> Result<T, Seq<char>> {
    match r {
        Ok(p) => Ok(p),
        Err(e) => Err(e@),
    }
}

fn two_doubles(args: &[Value], i: usize) -> (r: Result<(u64, u64), String>)
    requires
        i + 1 < args@.len(),
    ensures
        pair_view(r) == two_numbers(vals(args@), i as int),
{
    let len: usize = args.len();
    assert(i + 1 < len);
    match f64_arg(args, i) {
        Err(e) => Err(e),
        Ok(a) => match f64_arg(args, i + 1) {
            Err(e) => Err(e),
            Ok(b) => Ok((a, b)),
        },
    }
}

fn range(args: &[Value], i: usize) -> (r: Result<(i64, i64), String>)
    requires
        i + 1 < args@.len(),
    ensures
        pair_view(r) == range_args(vals(args@), i as int),
{
    let len: usize = args.len();
    assert(i + 1 < len);
    match i64_arg(args, i) {
        Err(e) => Err(e),
        Ok(lo) => match i64_arg(args, i + 1) {
            Err(e) => Err(e),
            Ok(hi) => {
                if hi <= lo {
                    let mut m = text_copy("empty range [");
                    push_int(&mut m, lo);
                    push_text(&mut m, ", ");
                    push_int(&mut m, hi);
                    push_text(&mut m, ")");
                    return Err(m);
                }
                Ok((lo, hi))
            },
        },
    }
}

fn fill(args: &[Value]) -> (r: Result<(usize, u64, u64), String>)
    requires
        args@.len() == 4,
    ensures
        pair_view(r) == fill_args(vals(args@)),
{
    match usize_arg(args, 1) {
        Err(e) => Err(e),
        Ok(n) => match two_doubles(args, 2) {
            Err(e) => Err(e),
            Ok((a, b)) => Ok((n as usize, a, b)),
        },
    }
}

/// The view of a request or an error.
pub open spec fn request_view(r: Result<RngCall, String>) -> Result<RngRequest, Seq<char>> {
    match r {
        Ok(c) => Ok(c.view()),
        Err(e) => Err(e@),
    }
}

fn rng_bulk(name: &str, args: &[Value]) -> (r: Result<RngCall, String>)
    requires
        args@.len() == 4,
        rng_arity(name@) == Some(4nat),
    ensures
        request_view(r) == (if name@ == "fill-normal!"@ {
            match fill_args(vals(args@)) {
                Err(e) => Err::<RngRequest, Seq<char>>(e),
                Ok((n, mu, sigma)) => Ok(RngRequest::Draw(Draw::FillNormal { n, mu, sigma })),
            }
        } else if name@ == "fill-uniform!"@ {
            match fill_args(vals(args@)) {
                Err(e) => Err(e),
                Ok((n, lo, hi)) => Ok(RngRequest::Draw(Draw::FillUniform { n, lo, hi })),
            }
        } else if name@ == "fill-lognormal!"@ {
            match fill_args(vals(args@)) {
                Err(e) => Err(e),
                Ok((n, mu, sigma)) => Ok(RngRequest::Draw(Draw::FillLognormal { n, mu, sigma })),
            }
        } else {
            match size_arg(vals(args@), 1) {
                Err(e) => Err(e),
                Ok(n) => match range_args(vals(args@), 2) {
                    Err(e) => Err(e),
                    Ok((lo, hi)) => Ok(
                        RngRequest::Draw(Draw::FillIntegers { n: n as usize, lo, hi }),
                    ),
                },
            }
        }),
{
    if same_text(name, "fill-normal!") {
        match fill(args) {
            Err(e) => Err(e),
            Ok((n, mu, sigma)) => Ok(RngCall::Draw(Draw::FillNormal { n, mu, sigma })),
        }
    } else if same_text(name, "fill-uniform!") {
        match fill(args) {
            Err(e) => Err(e),
            Ok((n, lo, hi)) => Ok(RngCall::Draw(Draw::FillUniform { n, lo, hi })),
        }
    } else if same_text(name, "fill-lognormal!") {
        match fill(args) {
            Err(e) => Err(e),
            Ok((n, mu, sigma)) => Ok(RngCall::Draw(Draw::FillLognormal { n, mu, sigma })),
        }
    } else {
        match usize_arg(args, 1) {
            Err(e) => Err(e),
            Ok(n) => match range(args, 2) {
                Err(e) => Err(e),
                Ok((lo, hi)) => Ok(RngCall::Draw(Draw::FillIntegers { n: n as usize, lo, hi })),
            },
        }
    }
}

proof fn lemma_rng_names(name: Seq<char>)
    requires
        rng_arity(name) == Some(4nat),
    ensures
        name != "rng"@,
        name != "next-double!"@,
        name != "next-long!"@,
        name != "integers!"@,
        name != "uniform!"@,
        name != "normal!"@,
        name != "lognormal!"@,
        name != "sample-idx!"@,
        name != "poisson!"@,
        name != "fill-poisson!"@,
        name != "sample-groups!"@,
{
    reveal_strlit("sample-groups!");
    assert("sample-groups!"@[0] == 's');
    reveal_strlit("poisson!");
    reveal_strlit("fill-poisson!");
    reveal_strlit("rng");
    reveal_strlit("next-double!");
    reveal_strlit("next-long!");
    reveal_strlit("integers!");
    reveal_strlit("uniform!");
    reveal_strlit("normal!");
    reveal_strlit("lognormal!");
    reveal_strlit("sample-idx!");
    reveal_strlit("fill-normal!");
    reveal_strlit("fill-uniform!");
    reveal_strlit("fill-lognormal!");
    reveal_strlit("fill-integers!");
    assert("fill-normal!"@[0] == 'f' && "fill-uniform!"@[0] == 'f' && "fill-lognormal!"@[0] == 'f'
        && "fill-integers!"@[0] == 'f');
    assert("rng"@[0] == 'r' && "next-double!"@[0] == 'n' && "next-long!"@[0] == 'n'
        && "integers!"@[0] == 'i' && "uniform!"@[0] == 'u' && "normal!"@[0] == 'n'
        && "lognormal!"@[0] == 'l' && "sample-idx!"@[0] == 's' && "poisson!"@[0] == 'p');
    assert("fill-poisson!"@[5] == 'p' && "fill-normal!"@[5] == 'n' && "fill-uniform!"@[5] == 'u'
        && "fill-lognormal!"@[5] == 'l' && "fill-integers!"@[5] == 'i');
}

/// Take apart a call of a random-stream function.
pub fn decode_rng(name: &str, args: &[Value]) -> (r: Result<RngCall, String>)
    requires
        rng_arity(name@) == Some(args@.len()),
    ensures
        request_view(r) == rng_request(name@, vals(args@)),
{
    if args.len() == 4 {
        proof {
            lemma_rng_names(name@);
        }
        return rng_bulk(name, args);
    }
    if same_text(name, "rng") {
        proof {
            reveal_strlit("rng");
            reveal_strlit("next-double!");
            reveal_strlit("next-long!");
            assert("rng"@.len() == 3 && "next-double!"@.len() == 12 && "next-long!"@.len() == 10);
        }
        match i64_arg(args, 0) {
            Err(e) => Err(e),
            Ok(seed) => match str_arg(args, 1) {
                Err(e) => Err(e),
                Ok(stream) => Ok(RngCall::New { seed, stream }),
            },
        }
    } else if same_text(name, "poisson!") {
        proof {
            lemma_poisson_names();
        }
        match f64_arg(args, 1) {
            Err(e) => Err(e),
            Ok(lambda) => Ok(RngCall::Draw(Draw::Poisson { lambda })),
        }
    } else if same_text(name, "fill-poisson!") {
        proof {
            lemma_poisson_names();
        }
        match usize_arg(args, 1) {
            Err(e) => Err(e),
            Ok(n) => match f64_arg(args, 2) {
                Err(e) => Err(e),
                Ok(lambda) => Ok(
                    RngCall::Draw(Draw::FillPoisson { n: n as usize, lambda }),
                ),
            },
        }
    } else if same_text(name, "sample-groups!") {
        proof {
            lemma_groups_name();
            assert(vals(args@)[1] == args@[1].view());
        }
        match longs(&args[1]) {
            Err(e) => Err(e),
            Ok(counts) => match usize_arg(args, 2) {
                Err(e) => Err(e),
                Ok(m) => Ok(RngCall::Groups { counts, m: m as usize }),
            },
        }
    } else if same_text(name, "next-double!") {
        Ok(RngCall::Draw(Draw::Double))
    } else if same_text(name, "next-long!") {
        Ok(RngCall::Draw(Draw::Long))
    } else if same_text(name, "integers!") {
        match range(args, 1) {
            Err(e) => Err(e),
            Ok((lo, hi)) => Ok(RngCall::Draw(Draw::Integers { lo, hi })),
        }
    } else if same_text(name, "uniform!") {
        match two_doubles(args, 1) {
            Err(e) => Err(e),
            Ok((lo, hi)) => Ok(RngCall::Draw(Draw::Uniform { lo, hi })),
        }
    } else if same_text(name, "normal!") {
        match two_doubles(args, 1) {
            Err(e) => Err(e),
            Ok((mu, sigma)) => Ok(RngCall::Draw(Draw::Normal { mu, sigma })),
        }
    } else if same_text(name, "lognormal!") {
        match two_doubles(args, 1) {
            Err(e) => Err(e),
            Ok((mu, sigma)) => Ok(RngCall::Draw(Draw::Lognormal { mu, sigma })),
        }
    } else {
        proof {
            lemma_sample_name(name@);
        }
        match usize_arg(args, 1) {
            Err(e) => Err(e),
            Ok(n) => match usize_arg(args, 2) {
                Err(e) => Err(e),
                Ok(m) => Ok(
                    RngCall::Draw(Draw::SampleIdx { n: n as usize, m: m as usize }),
                ),
            },
        }
    }
}

/// No other function has the name of a Poisson one.
proof fn lemma_poisson_names()
    ensures
        rng_arity("poisson!"@) == Some(2nat),
        rng_arity("fill-poisson!"@) == Some(3nat),
        "poisson!"@ != "fill-poisson!"@,
{
    reveal_strlit("poisson!");
    reveal_strlit("fill-poisson!");
    reveal_strlit("rng");
    reveal_strlit("next-double!");
    reveal_strlit("next-long!");
    reveal_strlit("integers!");
    reveal_strlit("uniform!");
    reveal_strlit("normal!");
    reveal_strlit("lognormal!");
    reveal_strlit("sample-idx!");
    assert("poisson!"@[0] == 'p' && "fill-poisson!"@[0] == 'f' && "next-double!"@[0] == 'n'
        && "next-long!"@[0] == 'n' && "rng"@[0] == 'r');
}

/// No function of another arity has the name of the sampling of groups.
proof fn lemma_groups_name()
    ensures
        rng_arity("sample-groups!"@) == Some(3nat),
        "sample-groups!"@ != "rng"@,
        "sample-groups!"@ != "poisson!"@,
        "sample-groups!"@ != "fill-poisson!"@,
{
    reveal_strlit("sample-groups!");
    reveal_strlit("rng");
    reveal_strlit("poisson!");
    reveal_strlit("fill-poisson!");
    reveal_strlit("next-double!");
    reveal_strlit("next-long!");
    assert("sample-groups!"@[0] == 's' && "rng"@[0] == 'r' && "poisson!"@[0] == 'p'
        && "fill-poisson!"@[0] == 'f' && "next-double!"@[0] == 'n' && "next-long!"@[0] == 'n');
}

proof fn lemma_sample_name(name: Seq<char>)
    requires
        name != "sample-groups!"@,
        rng_arity(name) is Some,
        rng_arity(name) != Some(4nat),
        name != "poisson!"@,
        name != "fill-poisson!"@,
        name != "rng"@,
        name != "next-double!"@,
        name != "next-long!"@,
        name != "integers!"@,
        name != "uniform!"@,
        name != "normal!"@,
        name != "lognormal!"@,
    ensures
        name == "sample-idx!"@,
        name != "fill-normal!"@,
        name != "fill-uniform!"@,
        name != "fill-lognormal!"@,
{
    reveal_strlit("sample-idx!");
    reveal_strlit("fill-normal!");
    reveal_strlit("fill-uniform!");
    reveal_strlit("fill-lognormal!");
    assert("sample-idx!"@[0] == 's' && "fill-normal!"@[0] == 'f' && "fill-uniform!"@[0] == 'f'
        && "fill-lognormal!"@[0] == 'f');
}

/// What a call of a random-stream function does to the heap, and what it comes to.
pub open spec fn rng_effect<F: Fn(FloatOp, u64, u64) -> u64>(
    math: F,
    name: Seq<char>,
    args: Seq<Val>,
    before: Seq<Native>,
    after: Seq<Native>,
    result: Result<Val, Seq<char>>,
) -> bool {
    match rng_request(name, args) {
        Err(e) => result == complains(e) && after == before,
        Ok(RngRequest::New { seed, stream }) => after == before.push(
            Native::Rng((seed as u64) ^ fnv1a(stream)),
        ) && result == yields(Val::NativeObject(before.len() as u64)),
        Ok(RngRequest::Draw(d)) => draw_effect(math, d, args[0], before, after, result),
        Ok(RngRequest::Groups { .. }) => false,
    }
}

/// Call a random-stream function. How groups are drawn is up to the host, which takes such a call
/// apart by [`decode_rng`].
pub fn call_rng<F: Fn(FloatOp, u64, u64) -> u64>(
    name: &str,
    args: &[Value],
    heap: &mut Heap,
    math: &F,
) -> (r: Result<Value, String>)
    requires
        rng_arity(name@) == Some(args@.len()),
        rng_request(name@, vals(args@)) matches Ok(RngRequest::Draw(d)) ==> drawable(d),
        !(rng_request(name@, vals(args@)) matches Ok(RngRequest::Groups { .. })),
        old(heap).view().len() <= u64::MAX,
        total_math(*math),
    ensures
        rng_effect(
            *math,
            name@,
            vals(args@),
            old(heap).view(),
            final(heap).view(),
            kernel_view(r),
        ),
{
    match decode_rng(name, args) {
        Err(e) => Err(e),
        Ok(RngCall::New { seed, stream }) => {
            let rng = NumRng::new(seed, stream.as_str());
            Ok(rng.into_value(heap))
        },
        Ok(RngCall::Draw(d)) => {
            assert(vals(args@)[0] == args@[0].view());
            with_rng(&args[0], heap, d, math)
        },
        Ok(RngCall::Groups { .. }) => {
            assert(false);
            Err(text_copy("NumRng draw unknown"))
        },
    }
}

// ---------------------------------------------------------------------------
// Bulk CSV
// ---------------------------------------------------------------------------

/// A call that writes columns to a CSV file.
#[derive(Debug)]
pub struct CsvRequest {
    pub path: String,
    pub header: Vec<String>,
    pub columns: Vec<Value>,
    /// Add to the file, without a header row.
    pub append: bool,
}

/// What a [`CsvRequest`] holds.
pub struct CsvAsked {
    pub path: Seq<char>,
    pub header: Seq<Seq<char>>,
    pub columns: Seq<Val>,
    pub append: bool,
}

/// The texts of a sequence of strings.
pub open spec fn name_texts(names: Seq<String>) -> Seq<Seq<char>> {
    Seq::new(names.len(), |i: int| names[i]@)
}

impl CsvRequest {
    pub open spec fn view(&self) -> CsvAsked {
        CsvAsked {
            path: self.path@,
            header: name_texts(self.header@),
            columns: vals(self.columns@),
            append: self.append,
        }
    }
}

/// The names that the values of a header are, or what is wrong with the first that is not one.
pub open spec fn header_names(items: Seq<Val>) -> Result<Seq<Seq<char>>, Seq<char>>
    decreases items.len(),
{
    if items.len() == 0 {
        Ok(Seq::empty())
    } else {
        match header_names(items.drop_last()) {
            Err(e) => Err(e),
            Ok(names) => match items.last() {
                Val::Str(s) => Ok(names.push(s)),
                other => Err("header names must be strings, got "@ + kind_of(other)),
            },
        }
    }
}

/// What a call asks to be written, or what is wrong with its arguments.
pub open spec fn csv_asked(args: Seq<Val>) -> Result<CsvAsked, Seq<char>> {
    match text_arg(args, 0) {
        Err(e) => Err(e),
        Ok(path) => match args[1] {
            Val::Vector(names) => match header_names(names) {
                Err(e) => Err(e),
                Ok(header) => match args[2] {
                    Val::Vector(columns) => Ok(
                        CsvAsked {
                            path,
                            header,
                            columns,
                            append: args.len() > 3 && args[3] == Val::Bool(true),
                        },
                    ),
                    other => Err("columns must be a vector, got "@ + kind_of(other)),
                },
            },
            other => Err("header must be a vector, got "@ + kind_of(other)),
        },
    }
}

proof fn lemma_header_error(items: Seq<Val>, k: int)
    requires
        0 <= k <= items.len(),
        header_names(items.take(k)) is Err,
    ensures
        header_names(items) == header_names(items.take(k)),
    decreases items.len(),
{
    if k == items.len() {
        assert(items.take(k) =~= items);
    } else {
        assert(items.drop_last().take(k) =~= items.take(k));
        lemma_header_error(items.drop_last(), k);
    }
}

fn kind_error(message: &str, v: &Value) -> (r: String)
    ensures
        r@ == message@ + kind_of(v.view()),
{
    let mut m = text_copy(message);
    push_text(&mut m, v.kind());
    m
}

fn header(items: &Vec<Value>) -> (r: Result<Vec<String>, String>)
    ensures
        (match r {
            Ok(names) => Ok::<Seq<Seq<char>>, Seq<char>>(name_texts(names@)),
            Err(e) => Err(e@),
        }) == header_names(vals(items@)),
{
    let ghost all = vals(items@);
    let mut names: Vec<String> = Vec::new();
    assert(all.take(0) =~= Seq::empty());
    assert(name_texts(names@) =~= Seq::empty());
    for i in 0..items.len()
        invariant
            all == vals(items@),
            header_names(all.take(i as int)) == Ok::<Seq<Seq<char>>, Seq<char>>(name_texts(names@)),
    {
        let ghost seen = all.take(i + 1);
        assert(seen.drop_last() =~= all.take(i as int));
        assert(seen.last() == items@[i as int].view());
        match &items[i] {
            Value::Str(s) => {
                let ghost before = names@;
                names.push(s.clone());
                assert(name_texts(names@) =~= name_texts(before).push(s@));
            },
            other => {
                proof {
                    lemma_header_error(all, i + 1);
                }
                return Err(kind_error("header names must be strings, got ", other));
            },
        }
    }
    assert(all.take(all.len() as int) =~= all);
    Ok(names)
}

/// Take apart a call that writes columns to a CSV file.
pub fn csv_request(args: &[Value]) -> (r: Result<CsvRequest, String>)
    requires
        args@.len() >= 3,
    ensures
        (match r {
            Ok(q) => Ok::<CsvAsked, Seq<char>>(q.view()),
            Err(e) => Err(e@),
        }) == csv_asked(vals(args@)),
{
    let ghost all = vals(args@);
    assert(forall|i: int| 0 <= i < args@.len() ==> #[trigger] all[i] == args@[i].view());
    let path = match str_arg(args, 0) {
        Ok(p) => p,
        Err(e) => {
            return Err(e);
        },
    };
    proof {
        lemma_views(args@[1]);
        lemma_views(args@[2]);
    }
    let header = match &args[1] {
        Value::Vector(items) => match header(items) {
            Ok(h) => h,
            Err(e) => {
                return Err(e);
            },
        },
        other => {
            return Err(kind_error("header must be a vector, got ", other));
        },
    };
    let columns = match &args[2] {
        Value::Vector(items) => values_copy(items),
        other => {
            return Err(kind_error("columns must be a vector, got ", other));
        },
    };
    let append = args.len() > 3 && match &args[3] {
        Value::Bool(b) => *b,
        _ => false,
    };
    Ok(CsvRequest { path, header, columns, append })
}

} // verus!
