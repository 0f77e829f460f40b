//! Laws of `#(...)`: what becomes of each symbol in its body.

use vstd::prelude::*;
use crate::anon_fn::{
    all_rewritten, anon_fn_tree, anon_params, any_uses_rest, max_arg, max_args, param_name, pct_ref,
    rewritten, symbol_tree, uses_rest, PctRef,
};
use crate::decimal::{ascii_bytes, digits};
use crate::decimal::law_digits_round_trip;
use crate::form::{Bracket, Place, Tree, TreeKind};
use crate::parse::law_unsigned_reads_back;

verus! {

/// The form at a place directly below another. What a nested `#(...)` holds is its own matter.
pub open spec fn child(t: Tree, i: nat) -> Option<Tree> {
    match t.kind {
        TreeKind::Items(_, c) => if i < c.len() {
            Some(c[i as int])
        } else {
            None
        },
        TreeKind::ReaderCond(_, c) => if i < c.len() {
            Some(c[i as int])
        } else {
            None
        },
        TreeKind::Wrapped(_, inner) => if i == 0 {
            Some(*inner)
        } else {
            None
        },
        TreeKind::TaggedLiteral(_, inner) => if i == 0 {
            Some(*inner)
        } else {
            None
        },
        TreeKind::Meta(m, inner) => if i == 0 {
            Some(*m)
        } else if i == 1 {
            Some(*inner)
        } else {
            None
        },
        _ => None,
    }
}

/// The form at a place anywhere below another.
pub open spec fn within(t: Tree, path: Seq<nat>) -> Option<Tree>
    decreases path.len(),
{
    if path.len() == 0 {
        Some(t)
    } else {
        match child(t, path[0]) {
            Some(c) => within(c, path.skip(1)),
            None => None,
        }
    }
}

/// The forms are the same but for what they hold: the same kind of form, and as many below it.
pub open spec fn same_outline(a: TreeKind, b: TreeKind) -> bool {
    match (a, b) {
        (TreeKind::Symbol(_), TreeKind::Symbol(_)) => true,
        (TreeKind::Items(x, c), TreeKind::Items(y, d)) => x == y && c.len() == d.len(),
        (TreeKind::ReaderCond(x, c), TreeKind::ReaderCond(y, d)) => x == y && c.len() == d.len(),
        (TreeKind::Wrapped(x, _), TreeKind::Wrapped(y, _)) => x == y,
        (TreeKind::TaggedLiteral(x, _), TreeKind::TaggedLiteral(y, _)) => x == y,
        (TreeKind::Meta(_, _), TreeKind::Meta(_, _)) => true,
        _ => a == b,
    }
}

proof fn lemma_child_rewritten(t: Tree, span: Place, i: nat)
    ensures
        child(rewritten(t, span), i) == (match child(t, i) {
            Some(c) => Some(rewritten(c, span)),
            None => None,
        }),
{
    match t.kind {
        TreeKind::Symbol(s) => {},
        _ => {},
    }
}

proof fn lemma_within_rewritten(t: Tree, span: Place, path: Seq<nat>)
    ensures
        within(rewritten(t, span), path) == (match within(t, path) {
            Some(c) => Some(rewritten(c, span)),
            None => None,
        }),
    decreases path.len(),
{
    if path.len() > 0 {
        lemma_child_rewritten(t, span, path[0]);
        if let Some(c) = child(t, path[0]) {
            lemma_within_rewritten(c, span, path.skip(1));
        }
    }
}

proof fn lemma_max_arg_child(t: Tree, i: nat)
    requires
        child(t, i) is Some,
    ensures
        max_arg(child(t, i)->0) <= max_arg(t),
        uses_rest(child(t, i)->0) ==> uses_rest(t),
{
    match t.kind {
        TreeKind::Items(_, c) => lemma_max_args_one(c, i as int),
        TreeKind::ReaderCond(_, c) => lemma_max_args_one(c, i as int),
        _ => {},
    }
}

proof fn lemma_max_args_one(ts: Seq<Tree>, i: int)
    requires
        0 <= i < ts.len(),
    ensures
        max_arg(ts[i]) <= max_args(ts),
        uses_rest(ts[i]) ==> any_uses_rest(ts),
    decreases ts.len(),
{
    if i < ts.len() - 1 {
        lemma_max_args_one(ts.drop_last(), i);
        assert(ts.drop_last()[i] == ts[i]);
    } else {
        assert(ts.last() == ts[i]);
    }
}

proof fn lemma_max_arg_within(t: Tree, path: Seq<nat>)
    requires
        within(t, path) is Some,
    ensures
        max_arg(within(t, path)->0) <= max_arg(t),
        uses_rest(within(t, path)->0) ==> uses_rest(t),
    decreases path.len(),
{
    if path.len() > 0 {
        lemma_max_arg_child(t, path[0]);
        lemma_max_arg_within(child(t, path[0])->0, path.skip(1));
    }
}

/// What symbols refer to: `%` and `%1` to the first argument, a percent sign and digits to the
/// argument at that position, `%&` to the rest, and a symbol that does not start with a percent
/// sign to no argument.
pub proof fn law_references(s: Seq<char>, n: nat)
    requires
        n <= usize::MAX,
    ensures
        s == "%"@ ==> pct_ref(s) == PctRef::Arg(1),
        s == "%"@ + digits(n) ==> pct_ref(s) == PctRef::Arg(n),
        s == "%&"@ ==> pct_ref(s) == PctRef::Rest,
        s.len() == 0 || s[0] != '%' ==> pct_ref(s) == PctRef::Other,
{
    reveal_strlit("%");
    reveal_strlit("%1");
    reveal_strlit("%&");
    law_unsigned_reads_back(n, usize::MAX as nat);
    law_digits_round_trip(n);
    assert("%1"@ =~= seq!['%', '1']);
    assert("%&"@[0] == '%' && "%&"@[1] == '&' && "%&"@.len() == 2 && "%"@.len() == 1 && "%"@[0]
        == '%');
    if s == "%"@ + digits(n) {
        assert(s.skip(1) =~= digits(n));
        assert(s[0] == '%');
        let d = digits(n);
        let b = ascii_bytes(d);
        if s == "%1"@ {
            assert(d =~= seq!['1']);
            assert(digits(1) =~= seq!['1']);
            law_digits_round_trip(1);
        }
        if s == "%&"@ {
            assert(b[0] == d[0] as u8);
            assert(d[0] == '&');
            assert(crate::decimal::is_digit_byte(b[0]));
        }
    }
}

/// In the function that `#(...)` becomes, the parameter vector and the body stand behind `fn*`. A
/// symbol of the body becomes the very symbol that stands at its position in the parameter vector,
/// `%&` the symbol behind the ampersand at its end, and every symbol without a percent sign stays as
/// it is.
pub proof fn law_references_become_parameters(
    body: Seq<Tree>,
    span: Place,
    k: int,
    path: Seq<nat>,
    n: nat,
)
    requires
        0 <= k < body.len(),
        within(body[k], path) is Some,
        (within(body[k], path)->0).kind is Symbol,
        1 <= n <= usize::MAX,
    ensures
        ({
            let s = (within(body[k], path)->0).kind->Symbol_0;
            let f = anon_fn_tree(body, span);
            let parts = f.kind->Items_1;
            let params = parts[1].kind->Items_1;
            let now = within(parts[2].kind->Items_1[k], path);
            &&& f.kind is Items && f.kind->Items_0 == Bracket::List && parts.len() == 3
            &&& parts[0].kind == TreeKind::Symbol("fn*"@)
            &&& parts[1].kind is Items && parts[1].kind->Items_0 == Bracket::Vector
            &&& parts[2].kind is Items && parts[2].kind->Items_0 == Bracket::List
            &&& parts[2].kind->Items_1.len() == body.len()
            &&& now is Some && (now->0).kind is Symbol
            &&& s == "%"@ ==> params.len() >= 1 && (now->0).kind == params[0].kind
            &&& s == "%"@ + digits(n) ==> params.len() >= n && (now->0).kind == params[n - 1].kind
            &&& s == "%&"@ ==> params.len() >= 2 && params[params.len() - 2].kind
                == TreeKind::Symbol("&"@) && (now->0).kind == params[params.len() - 1].kind
            &&& s.len() == 0 || s[0] != '%' ==> (now->0).kind == TreeKind::Symbol(s)
        }),
{
    let t = within(body[k], path)->0;
    let s = t.kind->Symbol_0;
    let params = anon_params(body, span);
    law_references(s, n);
    lemma_within_rewritten(body[k], span, path);
    assert(all_rewritten(body, span)[k] == rewritten(body[k], span));
    lemma_max_arg_within(body[k], path);
    lemma_max_args_one(body, k);
    if s == "%"@ {
        assert(params[0] == symbol_tree(param_name(1), span));
    }
    if s == "%"@ + digits(n) {
        assert(max_arg(t) == n);
        assert(params[n - 1] == symbol_tree(param_name(n), span));
    }
    if s == "%&"@ {
        assert(uses_rest(t));
    }
}

/// Different positions have different symbols in the parameter vector, and none of them is the one
/// of the rest or the ampersand.
pub proof fn law_parameters_are_apart(body: Seq<Tree>, span: Place, i: int, j: int)
    requires
        0 <= i < j < anon_params(body, span).len(),
    ensures
        anon_params(body, span)[i].kind is Symbol,
        anon_params(body, span)[j].kind is Symbol,
        anon_params(body, span)[i].kind != anon_params(body, span)[j].kind,
{
    reveal_strlit("p__");
    reveal_strlit("rest__");
    reveal_strlit("&");
    let params = anon_params(body, span);
    let n = max_args(body);
    assert("&"@[0] == '&' && "rest__"@[0] == 'r');
    if i < n {
        let a = (i + 1) as nat;
        assert(params[i] == symbol_tree(param_name(a), span));
        assert(param_name(a)[0] == 'p');
        if j < n {
            let b = (j + 1) as nat;
            assert(params[j] == symbol_tree(param_name(b), span));
            law_digits_round_trip(a);
            law_digits_round_trip(b);
            assert(param_name(a).skip(3) =~= digits(a));
            assert(param_name(b).skip(3) =~= digits(b));
        }
    }
}

/// All but the symbols stays as it is: a form becomes one of its kind, with as many forms below it.
pub proof fn law_outline_stays(t: Tree, span: Place, path: Seq<nat>)
    ensures
        within(rewritten(t, span), path) is Some <==> within(t, path) is Some,
        within(t, path) matches Some(c) ==> same_outline(
            c.kind,
            (within(rewritten(t, span), path)->0).kind,
        ),
{
    lemma_within_rewritten(t, span, path);
}

/// A symbol somewhere in the body refers to the argument at `n`.
pub open spec fn refers(body: Seq<Tree>, k: int, path: Seq<nat>, r: PctRef) -> bool {
    0 <= k < body.len() && (within(body[k], path) matches Some(t) && t.kind is Symbol && pct_ref(
        t.kind->Symbol_0,
    ) == r)
}

proof fn lemma_highest_is_somewhere(t: Tree) -> (path: Seq<nat>)
    ensures
        max_arg(t) > 0 ==> (within(t, path) matches Some(c) && c.kind is Symbol && pct_ref(
            c.kind->Symbol_0,
        ) == PctRef::Arg(max_arg(t))),
    decreases t,
{
    if max_arg(t) == 0 {
        Seq::empty()
    } else {
        match t.kind {
            TreeKind::Items(_, c) => {
                let (i, rest) = lemma_highest_among(c);
                lemma_below(t, i, rest);
                seq![i] + rest
            },
            TreeKind::ReaderCond(_, c) => {
                let (i, rest) = lemma_highest_among(c);
                lemma_below(t, i, rest);
                seq![i] + rest
            },
            TreeKind::Wrapped(_, inner) => {
                let rest = lemma_highest_is_somewhere(*inner);
                lemma_below(t, 0, rest);
                seq![0nat] + rest
            },
            TreeKind::TaggedLiteral(_, inner) => {
                let rest = lemma_highest_is_somewhere(*inner);
                lemma_below(t, 0, rest);
                seq![0nat] + rest
            },
            TreeKind::Meta(m, inner) => {
                let a = lemma_highest_is_somewhere(*m);
                let b = lemma_highest_is_somewhere(*inner);
                lemma_below(t, 0, a);
                lemma_below(t, 1, b);
                if max_arg(*m) < max_arg(*inner) {
                    seq![1nat] + b
                } else {
                    seq![0nat] + a
                }
            },
            _ => Seq::empty(),
        }
    }
}

proof fn lemma_below(t: Tree, i: nat, rest: Seq<nat>)
    requires
        child(t, i) is Some,
    ensures
        within(t, seq![i] + rest) == within(child(t, i)->0, rest),
{
    assert((seq![i] + rest).skip(1) =~= rest);
}

proof fn lemma_highest_among(ts: Seq<Tree>) -> (r: (nat, Seq<nat>))
    requires
        max_args(ts) > 0,
    ensures
        r.0 < ts.len(),
        within(ts[r.0 as int], r.1) matches Some(c) && c.kind is Symbol && pct_ref(c.kind->Symbol_0)
            == PctRef::Arg(max_args(ts)),
    decreases ts,
{
    if max_args(ts.drop_last()) < max_arg(ts.last()) {
        let rest = lemma_highest_is_somewhere(ts.last());
        ((ts.len() - 1) as nat, rest)
    } else {
        let r = lemma_highest_among(ts.drop_last());
        assert(ts.drop_last()[r.0 as int] == ts[r.0 as int]);
        r
    }
}

/// The parameter vector is no longer than it has to be: its last position is one that a symbol of
/// the body refers to.
pub proof fn law_last_parameter_is_used(body: Seq<Tree>, span: Place)
    requires
        anon_params(body, span).len() > 0,
        !any_uses_rest(body),
    ensures
        exists|k: int, path: Seq<nat>| #[trigger]
            refers(body, k, path, PctRef::Arg(anon_params(body, span).len())),
{
    let r = lemma_highest_among(body);
    assert(refers(body, r.0 as int, r.1, PctRef::Arg(anon_params(body, span).len())));
}

proof fn lemma_rest_is_somewhere(t: Tree) -> (path: Seq<nat>)
    ensures
        uses_rest(t) ==> (within(t, path) matches Some(c) && c.kind is Symbol && pct_ref(
            c.kind->Symbol_0,
        ) == PctRef::Rest),
    decreases t,
{
    if !uses_rest(t) {
        Seq::empty()
    } else {
        match t.kind {
            TreeKind::Items(_, c) => {
                let (i, rest) = lemma_rest_among(c);
                lemma_below(t, i, rest);
                seq![i] + rest
            },
            TreeKind::ReaderCond(_, c) => {
                let (i, rest) = lemma_rest_among(c);
                lemma_below(t, i, rest);
                seq![i] + rest
            },
            TreeKind::Wrapped(_, inner) => {
                let rest = lemma_rest_is_somewhere(*inner);
                lemma_below(t, 0, rest);
                seq![0nat] + rest
            },
            TreeKind::TaggedLiteral(_, inner) => {
                let rest = lemma_rest_is_somewhere(*inner);
                lemma_below(t, 0, rest);
                seq![0nat] + rest
            },
            TreeKind::Meta(m, inner) => {
                let a = lemma_rest_is_somewhere(*m);
                let b = lemma_rest_is_somewhere(*inner);
                lemma_below(t, 0, a);
                lemma_below(t, 1, b);
                if uses_rest(*m) {
                    seq![0nat] + a
                } else {
                    seq![1nat] + b
                }
            },
            _ => Seq::empty(),
        }
    }
}

proof fn lemma_rest_among(ts: Seq<Tree>) -> (r: (nat, Seq<nat>))
    requires
        any_uses_rest(ts),
    ensures
        r.0 < ts.len(),
        within(ts[r.0 as int], r.1) matches Some(c) && c.kind is Symbol && pct_ref(c.kind->Symbol_0)
            == PctRef::Rest,
    decreases ts,
{
    if uses_rest(ts.last()) {
        let rest = lemma_rest_is_somewhere(ts.last());
        ((ts.len() - 1) as nat, rest)
    } else {
        let r = lemma_rest_among(ts.drop_last());
        assert(ts.drop_last()[r.0 as int] == ts[r.0 as int]);
        r
    }
}

/// The function takes the rest of its arguments only where a symbol of the body refers to it: the
/// ampersand is a parameter exactly then.
pub proof fn law_rest_is_taken_where_used(body: Seq<Tree>, span: Place)
    ensures
        (exists|i: int|
            0 <= i < anon_params(body, span).len() && (#[trigger] anon_params(body, span)[i]).kind
                == TreeKind::Symbol("&"@)) <==> exists|k: int, path: Seq<nat>| #[trigger]
            refers(body, k, path, PctRef::Rest),
{
    reveal_strlit("p__");
    reveal_strlit("&");
    let params = anon_params(body, span);
    if any_uses_rest(body) {
        let r = lemma_rest_among(body);
        assert(refers(body, r.0 as int, r.1, PctRef::Rest));
        assert(params[params.len() - 2].kind == TreeKind::Symbol("&"@));
    } else {
        assert forall|i: int| 0 <= i < params.len() implies (#[trigger] params[i]).kind
            != TreeKind::Symbol("&"@) by {
            assert(params[i] == symbol_tree(param_name((i + 1) as nat), span));
            assert(param_name((i + 1) as nat)[0] == 'p');
            assert("&"@[0] == '&');
        }
        assert forall|k: int, path: Seq<nat>| !#[trigger] refers(body, k, path, PctRef::Rest) by {
            if refers(body, k, path, PctRef::Rest) {
                lemma_max_arg_within(body[k], path);
                lemma_max_args_one(body, k);
            }
        }
    }
}

} // verus!
