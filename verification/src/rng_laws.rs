//! Laws of random streams: which draw a call asks for, and how streams go on.

use vstd::prelude::*;
use crate::num::Draw;
use crate::num_calls::{csv_asked, header_names, rng_arity, rng_request, CsvAsked, RngRequest};
use crate::rng::{advanced, drawn, drawn_between, fnv1a, fnv_step, stepped};
use crate::value::Val;

verus! {

proof fn lemma_draw_names()
    ensures
        "next-double!"@.len() == 12,
        "next-double!"@[0] == 'n',
        "next-long!"@.len() == 10,
        "next-long!"@[0] == 'n',
        "rng"@.len() == 3,
        "poisson!"@.len() == 8,
        "poisson!"@[0] == 'p',
        "integers!"@.len() == 9,
        "uniform!"@.len() == 8,
        "uniform!"@[0] == 'u',
        "normal!"@.len() == 7,
        "lognormal!"@.len() == 10,
        "lognormal!"@[0] == 'l',
        "sample-idx!"@.len() == 11,
        "fill-poisson!"@.len() == 13,
        "fill-poisson!"@[5] == 'p',
        "sample-groups!"@.len() == 14,
        "sample-groups!"@[0] == 's',
        "fill-normal!"@.len() == 12,
        "fill-normal!"@[0] == 'f',
        "fill-uniform!"@.len() == 13,
        "fill-uniform!"@[5] == 'u',
        "fill-lognormal!"@.len() == 15,
        "fill-integers!"@.len() == 14,
        "fill-integers!"@[0] == 'f',
{
    reveal_strlit("next-double!");
    reveal_strlit("next-long!");
    reveal_strlit("rng");
    reveal_strlit("poisson!");
    reveal_strlit("integers!");
    reveal_strlit("uniform!");
    reveal_strlit("normal!");
    reveal_strlit("lognormal!");
    reveal_strlit("sample-idx!");
    reveal_strlit("fill-poisson!");
    reveal_strlit("sample-groups!");
    reveal_strlit("fill-normal!");
    reveal_strlit("fill-uniform!");
    reveal_strlit("fill-lognormal!");
    reveal_strlit("fill-integers!");
}

/// How many arguments each random-stream function takes, the stream included.
pub proof fn law_rng_arities()
    ensures
        rng_arity("next-double!"@) == Some(1nat),
        rng_arity("next-long!"@) == Some(1nat),
        rng_arity("rng"@) == Some(2nat),
        rng_arity("poisson!"@) == Some(2nat),
        rng_arity("integers!"@) == Some(3nat),
        rng_arity("uniform!"@) == Some(3nat),
        rng_arity("normal!"@) == Some(3nat),
        rng_arity("lognormal!"@) == Some(3nat),
        rng_arity("sample-idx!"@) == Some(3nat),
        rng_arity("fill-poisson!"@) == Some(3nat),
        rng_arity("sample-groups!"@) == Some(3nat),
        rng_arity("fill-normal!"@) == Some(4nat),
        rng_arity("fill-uniform!"@) == Some(4nat),
        rng_arity("fill-lognormal!"@) == Some(4nat),
        rng_arity("fill-integers!"@) == Some(4nat),
{
    lemma_draw_names();
}

/// Which draw each name asks for, and with which of its arguments.
pub proof fn law_rng_requests(g: Val, x: u64, y: u64, n: i64, m: i64, s: Seq<char>)
    ensures
        rng_request("rng"@, seq![Val::Long(n), Val::Str(s)]) == Ok::<RngRequest, Seq<char>>(
            RngRequest::New { seed: n, stream: s },
        ),
        rng_request("next-double!"@, seq![g]) == Ok::<RngRequest, Seq<char>>(RngRequest::Draw(Draw::Double)),
        rng_request("next-long!"@, seq![g]) == Ok::<RngRequest, Seq<char>>(RngRequest::Draw(Draw::Long)),
        rng_request("poisson!"@, seq![g, Val::Double(x)]) == Ok::<RngRequest, Seq<char>>(RngRequest::Draw(Draw::Poisson { lambda: x })),
        rng_request("uniform!"@, seq![g, Val::Double(x), Val::Double(y)]) == Ok::<RngRequest, Seq<char>>(RngRequest::Draw(Draw::Uniform { lo: x, hi: y })),
        rng_request("normal!"@, seq![g, Val::Double(x), Val::Double(y)]) == Ok::<RngRequest, Seq<char>>(RngRequest::Draw(Draw::Normal { mu: x, sigma: y })),
        rng_request("lognormal!"@, seq![g, Val::Double(x), Val::Double(y)]) == Ok::<RngRequest, Seq<char>>(RngRequest::Draw(Draw::Lognormal { mu: x, sigma: y })),
        0 <= n && 0 <= m ==> rng_request("fill-poisson!"@, seq![g, Val::Long(n), Val::Double(x)])
            == Ok::<RngRequest, Seq<char>>(RngRequest::Draw(Draw::FillPoisson { n: n as usize, lambda: x })),
        0 <= n && 0 <= m ==> rng_request("fill-normal!"@, seq![g, Val::Long(n), Val::Double(x), Val::Double(y)])
            == Ok::<RngRequest, Seq<char>>(RngRequest::Draw(Draw::FillNormal { n: n as usize, mu: x, sigma: y })),
        0 <= n && 0 <= m ==> rng_request("fill-uniform!"@, seq![g, Val::Long(n), Val::Double(x), Val::Double(y)])
            == Ok::<RngRequest, Seq<char>>(RngRequest::Draw(Draw::FillUniform { n: n as usize, lo: x, hi: y })),
        0 <= n && 0 <= m ==> rng_request("fill-lognormal!"@, seq![g, Val::Long(n), Val::Double(x), Val::Double(y)])
            == Ok::<RngRequest, Seq<char>>(RngRequest::Draw(Draw::FillLognormal { n: n as usize, mu: x, sigma: y })),
        0 <= n && 0 <= m ==> rng_request("sample-idx!"@, seq![g, Val::Long(n), Val::Long(m)])
            == Ok::<RngRequest, Seq<char>>(RngRequest::Draw(Draw::SampleIdx { n: n as usize, m: m as usize })),
{
    lemma_draw_names();
}

/// A range of integers is drawn from only where it holds one.
pub proof fn law_rng_ranges(g: Val, lo: i64, hi: i64, n: i64)
    ensures
        lo < hi ==> rng_request("integers!"@, seq![g, Val::Long(lo), Val::Long(hi)]) == Ok::<
            RngRequest,
            Seq<char>,
        >(RngRequest::Draw(Draw::Integers { lo, hi })),
        lo >= hi ==> rng_request("integers!"@, seq![g, Val::Long(lo), Val::Long(hi)]) is Err,
        0 <= n && lo < hi ==> rng_request(
            "fill-integers!"@,
            seq![g, Val::Long(n), Val::Long(lo), Val::Long(hi)],
        ) == Ok::<RngRequest, Seq<char>>(
            RngRequest::Draw(Draw::FillIntegers { n: n as usize, lo, hi }),
        ),
        lo >= hi ==> rng_request(
            "fill-integers!"@,
            seq![g, Val::Long(n), Val::Long(lo), Val::Long(hi)],
        ) is Err,
{
    lemma_draw_names();
}

/// The name of a stream is hashed character by character by FNV-1a.
pub proof fn law_stream_names(s: Seq<char>, c: char)
    ensures
        fnv1a(Seq::empty()) == 0xCBF2_9CE4_8422_2325u64,
        fnv1a(s.push(c)) == (fnv1a(s) ^ (c as u64)).wrapping_mul(0x0000_0100_0000_01B3u64),
{
    reveal(fnv_step);
    assert(s.push(c).drop_last() =~= s);
}

/// A stream steps by the golden ratio's odd multiple, and each draw is the splitmix64 mix of the
/// state that it steps to.
pub proof fn law_draws(state: u64)
    ensures
        stepped(state) == state.wrapping_add(0x9E37_79B9_7F4A_7C15u64),
        ({
            let z = stepped(state);
            let a = (z ^ (z >> 30)).wrapping_mul(0xBF58_476D_1CE4_E5B9u64);
            let b = (a ^ (a >> 27)).wrapping_mul(0x94D0_49BB_1331_11EBu64);
            drawn(state) == b ^ (b >> 31)
        }),
{
}

/// Drawing some and then some more is drawing them all.
pub proof fn law_streams_go_on(state: u64, n: nat, m: nat)
    ensures
        advanced(advanced(state, n), m) == advanced(state, n + m),
        advanced(state, 1) == stepped(state),
    decreases m,
{
    reveal_with_fuel(advanced, 2);
    if m > 0 {
        law_streams_go_on(state, n, (m - 1) as nat);
        assert((n + m - 1) as nat == n + (m - 1) as nat);
    }
}

/// An integer from a range lies in it, the lower bound included and the upper one not.
pub proof fn law_drawn_integers(state: u64, lo: int, hi: int)
    requires
        lo < hi,
    ensures
        lo <= drawn_between(state, lo, hi) < hi,
        drawn_between(state, lo, hi) - lo == (drawn(state) >> 1) as int % (hi - lo),
{
    let r = (drawn(state) >> 1) as int % (hi - lo);
    assert(0 <= r < hi - lo) by (nonlinear_arith)
        requires
            hi - lo > 0,
            r == (drawn(state) >> 1) as int % (hi - lo),
    ;
}

/// The names of a header, in order, where all are strings; else it is refused.
pub proof fn law_header_names(items: Seq<Val>)
    ensures
        header_names(items) matches Ok(names) ==> names.len() == items.len() && forall|i: int|
            0 <= i < names.len() ==> items[i] == Val::Str(#[trigger] names[i]),
        header_names(items) is Err <==> exists|i: int|
            0 <= i < items.len() && !((#[trigger] items[i]) is Str),
    decreases items.len(),
{
    if items.len() > 0 {
        let rest = items.drop_last();
        law_header_names(rest);
        if exists|i: int| 0 <= i < items.len() && !((#[trigger] items[i]) is Str) {
            let i = choose|i: int| 0 <= i < items.len() && !((#[trigger] items[i]) is Str);
            if i < rest.len() {
                assert(rest[i] == items[i]);
            }
        }
        if header_names(items) is Err {
            if header_names(rest) is Err {
                let i = choose|i: int| 0 <= i < rest.len() && !((#[trigger] rest[i]) is Str);
                assert(rest[i] == items[i]);
            } else {
                assert(!(items[items.len() - 1] is Str));
            }
        }
    }
}

/// A call that writes columns names the file, the header and the columns in this order; it adds to
/// the file only where a fourth argument is true.
pub proof fn law_csv_requests(path: Seq<char>, names: Seq<Val>, columns: Seq<Val>, more: Val)
    ensures
        header_names(names) matches Ok(header) ==> {
            &&& csv_asked(seq![Val::Str(path), Val::Vector(names), Val::Vector(columns)]) == Ok::<
                CsvAsked,
                Seq<char>,
            >(CsvAsked { path, header, columns, append: false })
            &&& csv_asked(
                seq![Val::Str(path), Val::Vector(names), Val::Vector(columns), more],
            ) == Ok::<CsvAsked, Seq<char>>(
                CsvAsked { path, header, columns, append: more == Val::Bool(true) },
            )
        },
        header_names(names) is Err ==> csv_asked(
            seq![Val::Str(path), Val::Vector(names), Val::Vector(columns)],
        ) is Err,
{
}

} // verus!
