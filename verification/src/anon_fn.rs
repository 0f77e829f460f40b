//! Expansion of `#(...)`: `%` references become the parameters of a function.

use vstd::prelude::*;
use crate::decimal::digits;
use crate::decimal::push_digits;
use crate::form::{lemma_form_views, trees, Bracket, Place, Tree, TreeKind};
use crate::form::{form_copy, Form, FormKind, Span};
use crate::parse::{parse_usize, unsigned_number};
use crate::text::{chars_of, same_text, text_copy};

verus! {

/// What a symbol refers to inside `#(...)`.
pub enum PctRef {
    /// The argument at this position, from one on.
    Arg(nat),
    /// The rest of the arguments.
    Rest,
    Other,
}

/// The reference that a symbol is: `%` and `%1` the first argument, `%n` the argument at `n`, `%&`
/// the rest.
pub open spec fn pct_ref(s: Seq<char>) -> PctRef {
    if s == "%"@ || s == "%1"@ {
        PctRef::Arg(1)
    } else if s == "%&"@ {
        PctRef::Rest
    } else if s.len() > 0 && s[0] == '%' {
        match unsigned_number(s.skip(1), usize::MAX as nat) {
            Some(n) => PctRef::Arg(n),
            None => PctRef::Other,
        }
    } else {
        PctRef::Other
    }
}

/// The larger of two numbers.
pub open spec fn larger(a: nat, b: nat) -> nat {
    if a < b {
        b
    } else {
        a
    }
}

/// The highest argument position that a form refers to; zero for none. Nested anonymous functions
/// have their own arguments.
pub open spec fn max_arg(t: Tree) -> nat
    decreases t,
{
    match t.kind {
        TreeKind::Symbol(s) => match pct_ref(s) {
            PctRef::Arg(n) => n,
            _ => 0,
        },
        TreeKind::Items(_, c) => max_args(c),
        TreeKind::Wrapped(_, inner) => max_arg(*inner),
        TreeKind::TaggedLiteral(_, inner) => max_arg(*inner),
        TreeKind::Meta(m, inner) => larger(max_arg(*m), max_arg(*inner)),
        TreeKind::ReaderCond(_, clauses) => max_args(clauses),
        _ => 0,
    }
}

/// The highest argument position that the forms refer to.
pub open spec fn max_args(ts: Seq<Tree>) -> nat
    decreases ts,
{
    if ts.len() == 0 {
        0
    } else {
        larger(max_args(ts.drop_last()), max_arg(ts.last()))
    }
}

/// The form refers to the rest of the arguments.
pub open spec fn uses_rest(t: Tree) -> bool
    decreases t,
{
    match t.kind {
        TreeKind::Symbol(s) => pct_ref(s) is Rest,
        TreeKind::Items(_, c) => any_uses_rest(c),
        TreeKind::Wrapped(_, inner) => uses_rest(*inner),
        TreeKind::TaggedLiteral(_, inner) => uses_rest(*inner),
        TreeKind::Meta(m, inner) => uses_rest(*m) || uses_rest(*inner),
        TreeKind::ReaderCond(_, clauses) => any_uses_rest(clauses),
        _ => false,
    }
}

/// One of the forms refers to the rest of the arguments.
pub open spec fn any_uses_rest(ts: Seq<Tree>) -> bool
    decreases ts,
{
    ts.len() > 0 && (any_uses_rest(ts.drop_last()) || uses_rest(ts.last()))
}

/// The name of the parameter at position `n`.
pub open spec fn param_name(n: nat) -> Seq<char> {
    "p__"@ + digits(n)
}

/// A symbol form.
pub open spec fn symbol_tree(name: Seq<char>, span: Place) -> Tree {
    Tree { kind: TreeKind::Symbol(name), span }
}

/// The form with each `%` reference replaced by its parameter.
pub open spec fn rewritten(t: Tree, span: Place) -> Tree
    decreases t,
{
    match t.kind {
        TreeKind::Symbol(s) => match pct_ref(s) {
            PctRef::Arg(n) => symbol_tree(param_name(n), span),
            PctRef::Rest => symbol_tree("rest__"@, span),
            PctRef::Other => t,
        },
        TreeKind::Items(b, c) => Tree {
            kind: TreeKind::Items(
                b,
                Seq::new(
                    c.len(),
                    |i: int|
                        if 0 <= i < c.len() { rewritten(c[i], span) } else { arbitrary() },
                ),
            ),
            span,
        },
        TreeKind::Wrapped(s, inner) => Tree {
            kind: TreeKind::Wrapped(s, Box::new(rewritten(*inner, span))),
            span,
        },
        TreeKind::TaggedLiteral(tag, inner) => Tree {
            kind: TreeKind::TaggedLiteral(tag, Box::new(rewritten(*inner, span))),
            span,
        },
        TreeKind::Meta(m, inner) => Tree {
            kind: TreeKind::Meta(
                Box::new(rewritten(*m, span)),
                Box::new(rewritten(*inner, span)),
            ),
            span,
        },
        TreeKind::ReaderCond(splicing, c) => Tree {
            kind: TreeKind::ReaderCond(
                splicing,
                Seq::new(
                    c.len(),
                    |i: int|
                        if 0 <= i < c.len() { rewritten(c[i], span) } else { arbitrary() },
                ),
            ),
            span,
        },
        _ => t,
    }
}

/// Each form with its `%` references replaced.
pub open spec fn all_rewritten(ts: Seq<Tree>, span: Place) -> Seq<Tree> {
    Seq::new(ts.len(), |i: int| rewritten(ts[i], span))
}

/// The parameters of the function: one for each position up to the highest, and `& rest__` where
/// the rest is used.
pub open spec fn anon_params(body: Seq<Tree>, span: Place) -> Seq<Tree> {
    let positional = Seq::new(
        max_args(body),
        |i: int| symbol_tree(param_name((i + 1) as nat), span),
    );
    if any_uses_rest(body) {
        positional.push(symbol_tree("&"@, span)).push(symbol_tree("rest__"@, span))
    } else {
        positional
    }
}

/// `#(...)` as a function: `(fn* [params] (body ...))`.
pub open spec fn anon_fn_tree(body: Seq<Tree>, span: Place) -> Tree {
    Tree {
        kind: TreeKind::Items(
            Bracket::List,
            seq![
                symbol_tree("fn*"@, span),
                Tree { kind: TreeKind::Items(Bracket::Vector, anon_params(body, span)), span },
                Tree {
                    kind: TreeKind::Items(Bracket::List, all_rewritten(body, span)),
                    span,
                },
            ],
        ),
        span,
    }
}

/// What a symbol refers to; positions as machine words.
enum SymbolRef {
    Arg(usize),
    Rest,
    Other,
}

impl SymbolRef {
    spec fn view(&self) -> PctRef {
        match self {
            SymbolRef::Arg(n) => PctRef::Arg(*n as nat),
            SymbolRef::Rest => PctRef::Rest,
            SymbolRef::Other => PctRef::Other,
        }
    }
}

fn symbol_ref(s: &str) -> (r: SymbolRef)
    ensures
        r.view() == pct_ref(s@),
{
    if same_text(s, "%") || same_text(s, "%1") {
        return SymbolRef::Arg(1);
    }
    if same_text(s, "%&") {
        return SymbolRef::Rest;
    }
    let letters = chars_of(s);
    if letters.len() > 0 && letters[0] == '%' {
        match parse_usize(&letters, 1) {
            Some(n) => SymbolRef::Arg(n),
            None => SymbolRef::Other,
        }
    } else {
        SymbolRef::Other
    }
}

/// Raise `max_pos` to the highest position that the forms refer to, and note a use of the rest.
pub fn find_pct_refs(forms: &Vec<Form>, max_pos: &mut usize, has_rest: &mut bool)
    ensures
        *final(max_pos) == larger(*old(max_pos) as nat, max_args(trees(forms@))),
        *final(has_rest) == (*old(has_rest) || any_uses_rest(trees(forms@))),
    decreases forms,
{
    let ghost all = trees(forms@);
    let ghost pos = *max_pos as nat;
    let ghost rest = *has_rest;
    let mut i: usize = 0;
    assert(all.take(0) =~= Seq::empty());
    while i < forms.len()
        invariant
            i <= forms.len(),
            all == trees(forms@),
            *max_pos == larger(pos, max_args(all.take(i as int))),
            *has_rest == (rest || any_uses_rest(all.take(i as int))),
        decreases forms.len() - i,
    {
        assert(decreases_to!(forms => forms@[i as int]));
        proof {
            let seen = all.take(i + 1);
            assert(seen.drop_last() =~= all.take(i as int));
            assert(seen.last() == forms@[i as int].view());
        }
        find_pct_refs_form(&forms[i], max_pos, has_rest);
        i = i + 1;
    }
    assert(all.take(all.len() as int) =~= all);
}

/// Raise `max_pos` to the highest position that the form refers to, and note a use of the rest.
pub fn find_pct_refs_form(form: &Form, max_pos: &mut usize, has_rest: &mut bool)
    ensures
        *final(max_pos) == larger(*old(max_pos) as nat, max_arg(form.view())),
        *final(has_rest) == (*old(has_rest) || uses_rest(form.view())),
    decreases form,
{
    proof {
        lemma_form_views(form.kind);
    }
    match &form.kind {
        FormKind::Symbol(s) => match symbol_ref(s.as_str()) {
            SymbolRef::Arg(n) => {
                if n > *max_pos {
                    *max_pos = n;
                }
            },
            SymbolRef::Rest => {
                *has_rest = true;
            },
            SymbolRef::Other => {},
        },
        FormKind::List(c) => find_pct_refs(c, max_pos, has_rest),
        FormKind::Vector(c) => find_pct_refs(c, max_pos, has_rest),
        FormKind::SetLit(c) => find_pct_refs(c, max_pos, has_rest),
        FormKind::MapLit(c) => find_pct_refs(c, max_pos, has_rest),
        FormKind::Quote(inner) => find_pct_refs_form(inner, max_pos, has_rest),
        FormKind::SyntaxQuote(inner) => find_pct_refs_form(inner, max_pos, has_rest),
        FormKind::Unquote(inner) => find_pct_refs_form(inner, max_pos, has_rest),
        FormKind::UnquoteSplice(inner) => find_pct_refs_form(inner, max_pos, has_rest),
        FormKind::Deref(inner) => find_pct_refs_form(inner, max_pos, has_rest),
        FormKind::Var(inner) => find_pct_refs_form(inner, max_pos, has_rest),
        FormKind::TaggedLiteral(_, inner) => find_pct_refs_form(inner, max_pos, has_rest),
        FormKind::Meta(meta, inner) => {
            find_pct_refs_form(meta, max_pos, has_rest);
            find_pct_refs_form(inner, max_pos, has_rest);
        },
        FormKind::ReaderCond { splicing: _, clauses } => find_pct_refs(clauses, max_pos, has_rest),
        _ => {},
    }
}

fn param_symbol(n: usize) -> (r: String)
    ensures
        r@ == param_name(n as nat),
{
    let mut s = text_copy("p__");
    push_digits(&mut s, n as u64);
    s
}

fn symbol_form(name: String, span: &Span) -> (r: Form)
    ensures
        r.view() == symbol_tree(name@, span.view()),
{
    Form { kind: FormKind::Symbol(name), span: span.copy() }
}

/// Each form with its `%` references replaced.
pub fn rewrite_pct_refs(forms: &Vec<Form>, span: &Span) -> (r: Vec<Form>)
    ensures
        trees(r@) == all_rewritten(trees(forms@), span.view()),
    decreases forms,
{
    let mut r: Vec<Form> = Vec::new();
    let mut i: usize = 0;
    while i < forms.len()
        invariant
            i <= forms.len(),
            r@.len() == i,
            forall|j: int|
                0 <= j < i ==> (#[trigger] r@[j]).view() == rewritten(
                    forms@[j].view(),
                    span.view(),
                ),
        decreases forms.len() - i,
    {
        assert(decreases_to!(forms => forms@[i as int]));
        r.push(rewrite_pct_form(&forms[i], span));
        i = i + 1;
    }
    assert(trees(r@) =~= all_rewritten(trees(forms@), span.view()));
    r
}

/// The form with each `%` reference replaced by its parameter.
pub fn rewrite_pct_form(form: &Form, span: &Span) -> (r: Form)
    ensures
        r.view() == rewritten(form.view(), span.view()),
    decreases form,
{
    proof {
        lemma_form_views(form.kind);
    }
    let kind = match &form.kind {
        FormKind::Symbol(s) => match symbol_ref(s.as_str()) {
            SymbolRef::Arg(n) => {
                return symbol_form(param_symbol(n), span);
            },
            SymbolRef::Rest => {
                return symbol_form(text_copy("rest__"), span);
            },
            SymbolRef::Other => {
                return form_copy(form);
            },
        },
        FormKind::List(c) => FormKind::List(rewrite_pct_refs(c, span)),
        FormKind::Vector(c) => FormKind::Vector(rewrite_pct_refs(c, span)),
        FormKind::SetLit(c) => FormKind::SetLit(rewrite_pct_refs(c, span)),
        FormKind::MapLit(c) => FormKind::MapLit(rewrite_pct_refs(c, span)),
        FormKind::Quote(inner) => FormKind::Quote(Box::new(rewrite_pct_form(inner, span))),
        FormKind::SyntaxQuote(inner) => FormKind::SyntaxQuote(
            Box::new(rewrite_pct_form(inner, span)),
        ),
        FormKind::Unquote(inner) => FormKind::Unquote(Box::new(rewrite_pct_form(inner, span))),
        FormKind::UnquoteSplice(inner) => FormKind::UnquoteSplice(
            Box::new(rewrite_pct_form(inner, span)),
        ),
        FormKind::Deref(inner) => FormKind::Deref(Box::new(rewrite_pct_form(inner, span))),
        FormKind::Var(inner) => FormKind::Var(Box::new(rewrite_pct_form(inner, span))),
        FormKind::TaggedLiteral(tag, inner) => FormKind::TaggedLiteral(
            tag.clone(),
            Box::new(rewrite_pct_form(inner, span)),
        ),
        FormKind::Meta(meta, inner) => FormKind::Meta(
            Box::new(rewrite_pct_form(meta, span)),
            Box::new(rewrite_pct_form(inner, span)),
        ),
        FormKind::ReaderCond { splicing, clauses } => FormKind::ReaderCond {
            splicing: *splicing,
            clauses: rewrite_pct_refs(clauses, span),
        },
        _ => {
            return form_copy(form);
        },
    };
    proof {
        lemma_form_views(kind);
        lemma_all_rewritten(form.view(), span.view());
    }
    Form { kind, span: span.copy() }
}

/// The rewritten elements of a bracketed form are its elements rewritten.
proof fn lemma_all_rewritten(t: Tree, span: Place)
    ensures
        t.kind matches TreeKind::Items(b, c) ==> rewritten(t, span) == (Tree {
            kind: TreeKind::Items(b, all_rewritten(c, span)),
            span,
        }),
        t.kind matches TreeKind::ReaderCond(s, c) ==> rewritten(t, span) == (Tree {
            kind: TreeKind::ReaderCond(s, all_rewritten(c, span)),
            span,
        }),
{
    match t.kind {
        TreeKind::Items(b, c) => {
            assert(rewritten(t, span).kind->Items_1 =~= all_rewritten(c, span));
        },
        TreeKind::ReaderCond(s, c) => {
            assert(rewritten(t, span).kind->ReaderCond_1 =~= all_rewritten(c, span));
        },
        _ => {},
    }
}

fn param_forms(max_pos: usize, has_rest: bool, span: &Span) -> (r: Vec<Form>)
    ensures
        ({
            let positional = Seq::new(
                max_pos as nat,
                |i: int| symbol_tree(param_name((i + 1) as nat), span.view()),
            );
            trees(r@) == if has_rest {
                positional.push(symbol_tree("&"@, span.view())).push(
                    symbol_tree("rest__"@, span.view()),
                )
            } else {
                positional
            }
        }),
{
    let mut r: Vec<Form> = Vec::new();
    let mut n: usize = 0;
    while n < max_pos
        invariant
            n <= max_pos,
            r@.len() == n,
            forall|i: int|
                0 <= i < n ==> (#[trigger] r@[i]).view() == symbol_tree(
                    param_name((i + 1) as nat),
                    span.view(),
                ),
        decreases max_pos - n,
    {
        n = n + 1;
        r.push(symbol_form(param_symbol(n), span));
    }
    let ghost positional = Seq::new(
        max_pos as nat,
        |i: int| symbol_tree(param_name((i + 1) as nat), span.view()),
    );
    assert(trees(r@) =~= positional);
    if has_rest {
        let ghost before = r@;
        r.push(symbol_form(text_copy("&"), span));
        r.push(symbol_form(text_copy("rest__"), span));
        assert(trees(r@) =~= trees(before).push(symbol_tree("&"@, span.view())).push(
            symbol_tree("rest__"@, span.view()),
        ));
    }
    r
}

/// Expand `#(...)` to `(fn* [p__1 p__2 ... & rest__] (...))`.
pub fn expand_anon_fn(body: &Vec<Form>, span: &Span) -> (r: Form)
    ensures
        r.view() == anon_fn_tree(trees(body@), span.view()),
{
    let mut max_pos: usize = 0;
    let mut has_rest = false;
    find_pct_refs(body, &mut max_pos, &mut has_rest);
    let params = param_forms(max_pos, has_rest, span);
    assert(trees(params@) == anon_params(trees(body@), span.view()));
    let new_body = rewrite_pct_refs(body, span);
    let params_kind = FormKind::Vector(params);
    let body_kind = FormKind::List(new_body);
    proof {
        lemma_form_views(params_kind);
        lemma_form_views(body_kind);
    }
    let mut parts: Vec<Form> = Vec::new();
    parts.push(symbol_form(text_copy("fn*"), span));
    parts.push(Form { kind: params_kind, span: span.copy() });
    parts.push(Form { kind: body_kind, span: span.copy() });
    let kind = FormKind::List(parts);
    proof {
        lemma_form_views(kind);
        assert(trees(parts@) =~= anon_fn_tree(trees(body@), span.view()).kind->Items_1);
    }
    Form { kind, span: span.copy() }
}

proof fn lemma_param_is_no_ref(n: nat)
    ensures
        pct_ref(param_name(n)) is Other,
        pct_ref("rest__"@) is Other,
{
    reveal_strlit("p__");
    reveal_strlit("rest__");
    reveal_strlit("%");
    reveal_strlit("%1");
    reveal_strlit("%&");
    assert(param_name(n)[0] == 'p');
    assert("rest__"@[0] == 'r');
    assert("%"@[0] == '%' && "%1"@[0] == '%' && "%&"@[0] == '%');
}

proof fn lemma_no_refs_left(ts: Seq<Tree>, span: Place)
    ensures
        max_args(all_rewritten(ts, span)) == 0,
        !any_uses_rest(all_rewritten(ts, span)),
    decreases ts,
{
    if ts.len() > 0 {
        let after = all_rewritten(ts, span);
        assert(after.drop_last() =~= all_rewritten(ts.drop_last(), span));
        assert(after.last() == rewritten(ts.last(), span));
        lemma_no_refs_left(ts.drop_last(), span);
        law_no_refs_left(ts.last(), span);
    }
}

/// After the rewriting no `%` reference is left, but in nested anonymous functions.
pub proof fn law_no_refs_left(t: Tree, span: Place)
    ensures
        max_arg(rewritten(t, span)) == 0,
        !uses_rest(rewritten(t, span)),
    decreases t,
{
    match t.kind {
        TreeKind::Symbol(s) => match pct_ref(s) {
            PctRef::Arg(n) => lemma_param_is_no_ref(n),
            PctRef::Rest => lemma_param_is_no_ref(0),
            PctRef::Other => {},
        },
        TreeKind::Items(_, c) => {
            lemma_all_rewritten(t, span);
            lemma_no_refs_left(c, span);
        },
        TreeKind::Wrapped(_, inner) => law_no_refs_left(*inner, span),
        TreeKind::TaggedLiteral(_, inner) => law_no_refs_left(*inner, span),
        TreeKind::Meta(m, inner) => {
            law_no_refs_left(*m, span);
            law_no_refs_left(*inner, span);
        },
        TreeKind::ReaderCond(_, c) => {
            lemma_all_rewritten(t, span);
            lemma_no_refs_left(c, span);
        },
        _ => {},
    }
}

} // verus!
