//! Laws of reader forms: names, reader conditionals and literal values.

use vstd::prelude::*;
use crate::decimal::digits;
use crate::form::{Bracket, Place, Sugar, Tree, TreeKind};
use crate::form_value::{
    form_val, form_vals, height, heights, is_big_decimal, is_big_int, is_ratio, literal_entries,
    literal_items, parsed_name, slash_position,
};
use crate::form_value::{lemma_heights, lemma_slash};
use crate::hash_map::{distinct_keys, entry_value};
use crate::hash_map::{law_binding_keeps_keys_distinct, law_lookup_after_binding};
use crate::hash_set::{distinct_items, item_position};
use crate::hash_set::{law_adding_keeps_items_distinct, law_member_after_adding};
use crate::parse::{is_digit, only_digits};
use crate::reader_cond::{branch_from, expanded, expanded_form, selected};
use crate::value::{same, NameView, Val};

verus! {

/// A name splits at its first slash into namespace and name, unless the slash comes first; a name
/// without a slash has no namespace.
pub proof fn law_names_split(ns: Seq<char>, name: Seq<char>)
    requires
        ns.len() > 0,
        forall|i: int| 0 <= i < ns.len() ==> #[trigger] ns[i] != '/',
    ensures
        parsed_name(ns + seq!['/'] + name) == (NameView { namespace: Some(ns), name }),
        parsed_name(ns) == (NameView { namespace: None, name: ns }),
        parsed_name(seq!['/'] + name) == (NameView { namespace: None, name: seq!['/'] + name }),
{
    let s = ns + seq!['/'] + name;
    let n = ns.len() as int;
    lemma_slash(s);
    lemma_slash(ns);
    lemma_slash(seq!['/'] + name);
    assert(s[n] == '/');
    assert forall|j: int| 0 <= j < n implies #[trigger] s[j] != '/' by {
        assert(s[j] == ns[j]);
    }
    assert(slash_position(s) == Some(n));
    assert(s.take(n) =~= ns);
    assert(s.skip(n + 1) =~= name);
    assert((seq!['/'] + name)[0] == '/');
}

/// The clause at an even position is the platform's: its key is `:default` or a feature, and a
/// branch follows.
pub open spec fn applies(clauses: Seq<Tree>, features: Option<Seq<Seq<char>>>, i: int) -> bool {
    &&& 0 <= i && i + 1 < clauses.len()
    &&& i % 2 == 0
    &&& clauses[i].kind matches TreeKind::Keyword(k) && (k == "default"@ || (match features {
        Some(keys) => keys.contains(k),
        None => k == "rust"@,
    }))
}

proof fn lemma_branches(clauses: Seq<Tree>, features: Option<Seq<Seq<char>>>, i: int)
    requires
        0 <= i,
        i % 2 == 0,
    ensures
        match branch_from(clauses, features, i) {
            Some(b) => applies(clauses, features, b - 1) && i < b && forall|j: int|
                i <= j < b - 1 ==> !#[trigger] applies(clauses, features, j),
            None => forall|j: int| i <= j ==> !#[trigger] applies(clauses, features, j),
        },
    decreases clauses.len() - i,
{
    if i + 1 < clauses.len() {
        if !crate::reader_cond::key_matches(clauses, features, i) {
            lemma_branches(clauses, features, i + 2);
            assert(!applies(clauses, features, i));
            assert(!applies(clauses, features, i + 1));
            match branch_from(clauses, features, i) {
                Some(b) => {
                    assert forall|j: int| i <= j < b - 1 implies !#[trigger] applies(
                        clauses,
                        features,
                        j,
                    ) by {
                        if j < i + 2 {
                            assert(j == i || j == i + 1);
                        }
                    }
                },
                None => {
                    assert forall|j: int| i <= j implies !#[trigger] applies(
                        clauses,
                        features,
                        j,
                    ) by {
                        if j < i + 2 {
                            assert(j == i || j == i + 1);
                        }
                    }
                },
            }
        } else {
            assert(applies(clauses, features, i));
        }
    }
}

/// A reader conditional selects the branch of its first clause that is `:default` or a feature of the
/// platform, which without further features is `:rust`; and none where no clause is.
pub proof fn law_first_clause_is_selected(
    clauses: Seq<Tree>,
    features: Option<Seq<Seq<char>>>,
    i: int,
)
    ensures
        applies(clauses, features, i) && (forall|j: int|
            0 <= j < i ==> !#[trigger] applies(clauses, features, j)) ==> selected(
            clauses,
            features,
        ) == Some(clauses[i + 1]),
        (forall|j: int| !#[trigger] applies(clauses, features, j)) ==> selected(clauses, features)
            is None,
{
    lemma_branches(clauses, features, 0);
    if applies(clauses, features, i) && forall|j: int|
        0 <= j < i ==> !#[trigger] applies(clauses, features, j) {
        match branch_from(clauses, features, 0) {
            Some(b) => {
                assert(applies(clauses, features, b - 1));
            },
            None => {},
        }
    }
}

/// Expansion goes form by form: a form that is no conditional stays, a conditional becomes its
/// branch or nothing, and a splicing one the elements of its branch.
pub proof fn law_expansion(ts: Seq<Tree>, t: Tree, features: Option<Seq<Seq<char>>>)
    ensures
        expanded(Seq::empty(), features) == Seq::<Tree>::empty(),
        expanded(ts.push(t), features) == expanded(ts, features) + expanded(seq![t], features),
        !(t.kind is ReaderCond) ==> expanded(seq![t], features) == seq![t],
        t.kind matches TreeKind::ReaderCond(splicing, clauses) ==> match selected(
            clauses,
            features,
        ) {
            None => expanded(seq![t], features).len() == 0,
            Some(b) => {
                &&& !splicing ==> expanded(seq![t], features) == seq![b]
                &&& splicing ==> match b.kind {
                    TreeKind::Items(Bracket::List, elems) => expanded(seq![t], features)
                        == expanded(elems, features),
                    TreeKind::Items(Bracket::Vector, elems) => expanded(seq![t], features)
                        == expanded(elems, features),
                    _ => expanded(seq![t], features) == seq![b],
                }
            },
        },
{
    assert(ts.push(t).drop_last() =~= ts);
    assert(seq![t].drop_last() =~= Seq::empty());
    reveal_with_fuel(expanded, 2);
    assert(Seq::<Tree>::empty() + expanded_form(t, features) =~= expanded_form(t, features));
    if let TreeKind::ReaderCond(splicing, clauses) = t.kind {
        lemma_branches(clauses, features, 0);
        if let Some(b) = branch_from(clauses, features, 0) {
            assert(applies(clauses, features, b - 1));
        }
    }
}

/// No form is a reader conditional.
pub open spec fn unconditional(ts: Seq<Tree>) -> bool {
    forall|i: int| 0 <= i < ts.len() ==> !((#[trigger] ts[i]).kind is ReaderCond)
}

proof fn lemma_unconditional(ts: Seq<Tree>, features: Option<Seq<Seq<char>>>)
    requires
        unconditional(ts),
    ensures
        expanded(ts, features) == ts,
    decreases ts.len(),
{
    if ts.len() > 0 {
        let rest = ts.drop_last();
        assert forall|i: int| 0 <= i < rest.len() implies !((#[trigger] rest[i]).kind is ReaderCond) by {
            assert(rest[i] == ts[i]);
        }
        lemma_unconditional(rest, features);
        assert(!(ts[ts.len() - 1].kind is ReaderCond));
        assert(expanded_form(ts.last(), features) == seq![ts.last()]);
        assert(expanded(ts, features) == expanded(rest, features) + expanded_form(
            ts.last(),
            features,
        ));
        assert(rest + seq![ts.last()] =~= ts);
    } else {
        assert(ts =~= Seq::empty());
    }
}

/// The values of the forms, one by one.
pub open spec fn each_val(ts: Seq<Tree>, features: Option<Seq<Seq<char>>>) -> Seq<Val> {
    Seq::new(ts.len(), |i: int| form_val(ts[i], features))
}

proof fn lemma_each(ts: Seq<Tree>, features: Option<Seq<Seq<char>>>, h: nat)
    requires
        heights(ts) < h,
    ensures
        form_vals(ts, features, h) == each_val(ts, features),
{
    lemma_heights(ts);
    let a = form_vals(ts, features, h);
    let b = each_val(ts, features);
    assert forall|i: int| 0 <= i < ts.len() implies a[i] == b[i] by {
        assert(height(ts[i]) <= heights(ts));
    }
    assert(a =~= b);
}

/// A list or a vector holds the values of its forms, in order and as many.
pub proof fn law_sequences_hold_their_forms(
    ts: Seq<Tree>,
    span: Place,
    features: Option<Seq<Seq<char>>>,
)
    requires
        unconditional(ts),
    ensures
        form_val(Tree { kind: TreeKind::Items(Bracket::List, ts), span }, features) == Val::List(
            each_val(ts, features),
        ),
        form_val(Tree { kind: TreeKind::Items(Bracket::Vector, ts), span }, features)
            == Val::Vector(each_val(ts, features)),
{
    lemma_unconditional(ts, features);
    let a = Tree { kind: TreeKind::Items(Bracket::List, ts), span };
    let b = Tree { kind: TreeKind::Items(Bracket::Vector, ts), span };
    assert(height(a) == 1 + heights(ts) && height(b) == 1 + heights(ts));
    lemma_each(ts, features, height(a));
    lemma_each(ts, features, height(b));
}

/// The value that the last of the first pairs with an equal key gives it.
pub open spec fn last_given(v: Seq<Val>, key: Val, n: nat) -> Option<Val>
    decreases n,
{
    if n == 0 {
        None
    } else if same(v[2 * n - 2], key) {
        Some(v[2 * n - 1])
    } else {
        last_given(v, key, (n - 1) as nat)
    }
}

/// A map literal binds each key to the value that follows it, a later equal key over an earlier one.
pub proof fn law_map_literals(v: Seq<Val>, key: Val, n: nat)
    ensures
        distinct_keys(literal_entries(v, n)),
        entry_value(literal_entries(v, n), key) == last_given(v, key, n),
    decreases n,
{
    if n > 0 {
        let m = (n - 1) as nat;
        law_map_literals(v, key, m);
        law_binding_keeps_keys_distinct(literal_entries(v, m), v[2 * n - 2], v[2 * n - 1]);
        law_lookup_after_binding(literal_entries(v, m), v[2 * n - 2], v[2 * n - 1], key);
    }
}

/// A set literal holds exactly the values that equal one of its forms', each once.
pub proof fn law_set_literals(v: Seq<Val>, x: Val)
    ensures
        distinct_items(literal_items(v)),
        item_position(literal_items(v), x) is Some <==> exists|i: int|
            0 <= i < v.len() && same(#[trigger] v[i], x),
    decreases v.len(),
{
    if v.len() > 0 {
        let rest = v.drop_last();
        law_set_literals(rest, x);
        law_adding_keeps_items_distinct(literal_items(rest), v.last());
        law_member_after_adding(literal_items(rest), v.last(), x);
        if exists|i: int| 0 <= i < v.len() && same(#[trigger] v[i], x) {
            let i = choose|i: int| 0 <= i < v.len() && same(#[trigger] v[i], x);
            if i < rest.len() {
                assert(rest[i] == v[i]);
            }
        }
        if item_position(literal_items(v), x) is Some && !same(v.last(), x) {
            let i = choose|i: int| 0 <= i < rest.len() && same(#[trigger] rest[i], x);
            assert(v[i] == rest[i]);
        }
        if same(v.last(), x) {
            assert(same(v[v.len() - 1], x));
        }
    }
}

/// Map and set literals take their forms one by one.
pub proof fn law_literals_hold_their_forms(
    ts: Seq<Tree>,
    span: Place,
    features: Option<Seq<Seq<char>>>,
)
    ensures
        form_val(Tree { kind: TreeKind::Items(Bracket::MapLit, ts), span }, features)
            == Val::HashMap(literal_entries(each_val(ts, features), (ts.len() / 2) as nat)),
        form_val(Tree { kind: TreeKind::Items(Bracket::SetLit, ts), span }, features)
            == Val::HashSet(literal_items(each_val(ts, features))),
{
    let a = Tree { kind: TreeKind::Items(Bracket::MapLit, ts), span };
    let b = Tree { kind: TreeKind::Items(Bracket::SetLit, ts), span };
    assert(height(a) == 1 + heights(ts) && height(b) == 1 + heights(ts));
    lemma_each(ts, features, height(a));
    lemma_each(ts, features, height(b));
}

/// A list that starts with a symbol.
pub open spec fn call_of(name: Seq<char>, v: Val) -> Val {
    Val::List(seq![Val::Symbol(NameView { namespace: None, name }), v])
}

/// Reader macros stand for calls of their symbols on the value of their form; metadata falls away.
pub proof fn law_reader_macros(inner: Tree, meta: Tree, span: Place, f: Option<Seq<Seq<char>>>)
    ensures
        form_val(Tree { kind: TreeKind::Wrapped(Sugar::Quote, Box::new(inner)), span }, f)
            == call_of("quote"@, form_val(inner, f)),
        form_val(Tree { kind: TreeKind::Wrapped(Sugar::SyntaxQuote, Box::new(inner)), span }, f)
            == call_of("syntax-quote"@, form_val(inner, f)),
        form_val(Tree { kind: TreeKind::Wrapped(Sugar::Unquote, Box::new(inner)), span }, f)
            == call_of("unquote"@, form_val(inner, f)),
        form_val(Tree { kind: TreeKind::Wrapped(Sugar::UnquoteSplice, Box::new(inner)), span }, f)
            == call_of("unquote-splicing"@, form_val(inner, f)),
        form_val(Tree { kind: TreeKind::Wrapped(Sugar::Deref, Box::new(inner)), span }, f)
            == call_of("deref"@, form_val(inner, f)),
        form_val(Tree { kind: TreeKind::Wrapped(Sugar::Var, Box::new(inner)), span }, f)
            == call_of("var"@, form_val(inner, f)),
        form_val(Tree { kind: TreeKind::Meta(Box::new(meta), Box::new(inner)), span }, f)
            == form_val(inner, f),
{
}

/// What the literals of single values stand for.
pub proof fn law_single_values(
    b: bool,
    n: i64,
    x: u64,
    s: Seq<char>,
    c: char,
    span: Place,
    f: Option<Seq<Seq<char>>>,
)
    ensures
        form_val(Tree { kind: TreeKind::Nil, span }, f) == Val::Nil,
        form_val(Tree { kind: TreeKind::Bool(b), span }, f) == Val::Bool(b),
        form_val(Tree { kind: TreeKind::Int(n), span }, f) == Val::Long(n),
        form_val(Tree { kind: TreeKind::Float(x), span }, f) == Val::Double(x),
        form_val(Tree { kind: TreeKind::Symbolic(x), span }, f) == Val::Double(x),
        form_val(Tree { kind: TreeKind::Str(s), span }, f) == Val::Str(s),
        form_val(Tree { kind: TreeKind::Char(c), span }, f) == Val::Char(c),
        form_val(Tree { kind: TreeKind::Symbol(s), span }, f) == Val::Symbol(parsed_name(s)),
        form_val(Tree { kind: TreeKind::Keyword(s), span }, f) == Val::Keyword(parsed_name(s)),
        form_val(Tree { kind: TreeKind::AutoKeyword(s), span }, f) == Val::Keyword(
            NameView { namespace: None, name: s },
        ),
        form_val(Tree { kind: TreeKind::BigInt(s), span }, f) == (if is_big_int(s) {
            Val::BigInt(s)
        } else {
            Val::Nil
        }),
        form_val(Tree { kind: TreeKind::BigDecimal(s), span }, f) == (if is_big_decimal(s) {
            Val::BigDecimal(s)
        } else {
            Val::Nil
        }),
        form_val(Tree { kind: TreeKind::Ratio(s), span }, f) == (if is_ratio(s) {
            Val::Ratio(s)
        } else {
            Val::Nil
        }),
{
}

/// A conditional stands for the value of the branch that it selects; where it selects none, or
/// splices where nothing can be spliced, for nil.
pub proof fn law_conditional_values(
    splicing: bool,
    clauses: Seq<Tree>,
    span: Place,
    f: Option<Seq<Seq<char>>>,
)
    ensures
        ({
            let t = Tree { kind: TreeKind::ReaderCond(splicing, clauses), span };
            match selected(clauses, f) {
                Some(b) => form_val(t, f) == (if splicing {
                    Val::Nil
                } else {
                    form_val(b, f)
                }),
                None => form_val(t, f) == Val::Nil,
            }
        }),
{
    let t = Tree { kind: TreeKind::ReaderCond(splicing, clauses), span };
    lemma_branches(clauses, f, 0);
    lemma_heights(clauses);
    if let Some(b) = branch_from(clauses, f, 0) {
        assert(applies(clauses, f, b - 1));
        assert(height(clauses[b]) <= heights(clauses));
        assert(height(t) == 1 + heights(clauses));
    }
}

/// A tagged literal is the value of its form, but for `#uuid` before a string that writes one.
pub proof fn law_tagged_literals(tag: Seq<char>, inner: Tree, span: Place, f: Option<Seq<Seq<char>>>)
    ensures
        ({
            let t = Tree { kind: TreeKind::TaggedLiteral(tag, Box::new(inner)), span };
            match inner.kind {
                TreeKind::Str(s) => match crate::form_value::uuid_number(s) {
                    Some(u) => form_val(t, f) == (if tag == "uuid"@ {
                        Val::Uuid(u)
                    } else {
                        form_val(inner, f)
                    }),
                    None => form_val(t, f) == form_val(inner, f),
                },
                _ => form_val(t, f) == form_val(inner, f),
            }
        }),
{
}

/// A pattern is one where its text compiles, else nil.
pub proof fn law_patterns(s: Seq<char>, span: Place, f: Option<Seq<Seq<char>>>)
    ensures
        crate::form_value::regex_compiles(s) ==> form_val(
            Tree { kind: TreeKind::Regex(s), span },
            f,
        ) == Val::Pattern(s),
        !crate::form_value::regex_compiles(s) ==> form_val(
            Tree { kind: TreeKind::Regex(s), span },
            f,
        ) == Val::Nil,
{
}

proof fn lemma_digits_only(n: nat)
    ensures
        only_digits(digits(n)),
        digits(n).len() > 0,
    decreases n,
{
    if n >= 10 {
        lemma_digits_only(n / 10);
        let d = digits(n / 10);
        let s = digits(n);
        assert forall|i: int| 0 <= i < s.len() implies is_digit(#[trigger] s[i]) by {
            if i < d.len() {
                assert(s[i] == d[i]);
                assert(is_digit(d[i]));
            }
        }
    }
}

/// Digits write an integer of any size, with a sign or without; with a point among them a decimal
/// number, and with a slash a ratio. A text of other characters writes none.
pub proof fn law_number_texts(n: nat, m: nat)
    ensures
        is_big_int(digits(n)),
        is_big_int(seq!['-'] + digits(n)),
        is_big_int(seq!['+'] + digits(n)),
        !is_big_int(Seq::empty()),
        is_big_decimal(digits(n)),
        is_big_decimal(digits(n) + seq!['.'] + digits(m)),
        !is_big_int(digits(n) + seq!['.'] + digits(m)),
        !is_big_int(digits(n) + seq!['/'] + digits(m)),
{
    lemma_digits_only(n);
    lemma_digits_only(m);
    let d = digits(n);
    let e = digits(m);
    assert(is_digit(d[0]));
    assert((seq!['-'] + d).skip(1) =~= d);
    assert((seq!['+'] + d).skip(1) =~= d);
    let k = d.len() as int;
    let dec = d + seq!['.'] + e;
    let rat = d + seq!['/'] + e;
    assert(dec[0] == d[0] && rat[0] == d[0]);
    assert(dec.take(k) =~= d && dec.skip(k + 1) =~= e);
    assert(dec[k] == '.' && rat[k] == '/');
    assert(crate::form_value::point_at(crate::form_value::unsigned_part(dec), k));
    assert(!is_digit(dec[k]) && !is_digit(rat[k]));
}

} // verus!
