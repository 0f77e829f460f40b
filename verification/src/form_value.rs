//! The literal value of a form, without evaluating it.

use vstd::prelude::*;
use crate::anon_fn::{all_rewritten, anon_fn_tree, anon_params, rewritten};
use crate::anon_fn::expand_anon_fn;
use crate::form::{lemma_form_views, trees, Bracket, Place, Sugar, Tree, TreeKind};
use crate::form::{Form, FormKind};
use crate::hash_map::{entry_value, key_position, with_entry};
use crate::hash_set::{item_position, lemma_item_position, with_item};
use crate::parse::{is_digit, only_digits};
use crate::reader_cond::{branch_from, expanded, expanded_form, lemma_branch_from};
use crate::reader_cond::{expand_reader_conds, select_reader_cond, ReaderFeatures};
use crate::text::{chars_of, same_text, text_copy, text_of};
use crate::value::{lemma_views, pair_vals, same, vals, NameView, Val};
use crate::value::{equal, value_copy, Name, Value};

verus! {

// ---------------------------------------------------------------------------
// Names
// ---------------------------------------------------------------------------

/// The position of the first slash.
pub open spec fn slash_position(s: Seq<char>) -> Option<int>
    decreases s.len(),
{
    if s.len() == 0 {
        None
    } else if slash_position(s.drop_last()) is Some {
        slash_position(s.drop_last())
    } else if s.last() == '/' {
        Some(s.len() - 1)
    } else {
        None
    }
}

/// The name that a text writes: `namespace/name`, or a name alone. A slash at the front belongs to
/// the name.
pub open spec fn parsed_name(s: Seq<char>) -> NameView {
    match slash_position(s) {
        Some(i) => if i > 0 {
            NameView { namespace: Some(s.take(i)), name: s.skip(i + 1) }
        } else {
            NameView { namespace: None, name: s }
        },
        None => NameView { namespace: None, name: s },
    }
}

pub proof fn lemma_slash(s: Seq<char>)
    ensures
        match slash_position(s) {
            Some(i) => 0 <= i < s.len() && s[i] == '/' && forall|j: int|
                0 <= j < i ==> #[trigger] s[j] != '/',
            None => forall|j: int| 0 <= j < s.len() ==> #[trigger] s[j] != '/',
        },
    decreases s.len(),
{
    if s.len() > 0 {
        lemma_slash(s.drop_last());
        assert forall|j: int| 0 <= j < s.len() - 1 implies #[trigger] s[j] == s.drop_last()[j] by {}
    }
}

impl Name {
    /// Read a name, with its namespace before the first slash.
    pub fn parse(s: &str) -> (r: Name)
        ensures
            r.view() == parsed_name(s@),
    {
        let letters = chars_of(s);
        proof {
            lemma_slash(s@);
        }
        let mut i: usize = 0;
        while i < letters.len() && letters[i] != '/'
            invariant
                i <= letters@.len(),
                letters@ == s@,
                forall|j: int| 0 <= j < i ==> #[trigger] s@[j] != '/',
            decreases letters.len() - i,
        {
            i = i + 1;
        }
        if i > 0 && i < letters.len() {
            assert(slash_position(s@) == Some(i as int));
            let namespace = text_of(vstd::slice::slice_subrange(letters.as_slice(), 0, i));
            let name = text_of(
                vstd::slice::slice_subrange(letters.as_slice(), i + 1, letters.len()),
            );
            assert(namespace@ =~= s@.take(i as int));
            assert(name@ =~= s@.skip(i + 1));
            Name { namespace: Some(namespace), name }
        } else {
            Name { namespace: None, name: text_copy(s) }
        }
    }
}

// ---------------------------------------------------------------------------
// Numbers beyond the machine's
// ---------------------------------------------------------------------------

/// The text without a leading sign.
pub open spec fn unsigned_part(s: Seq<char>) -> Seq<char> {
    if s.len() > 0 && (s[0] == '+' || s[0] == '-') {
        s.skip(1)
    } else {
        s
    }
}

/// An integer of any size.
pub open spec fn is_big_int(s: Seq<char>) -> bool {
    unsigned_part(s).len() > 0 && only_digits(unsigned_part(s))
}

/// Digits with a decimal point at `p`.
pub open spec fn point_at(u: Seq<char>, p: int) -> bool {
    0 < p < u.len() && u[p] == '.' && only_digits(u.take(p)) && only_digits(u.skip(p + 1))
}

/// A decimal number of any size: digits, with a point among or after them or without.
pub open spec fn is_big_decimal(s: Seq<char>) -> bool {
    is_big_int(s) || exists|p: int| #[trigger] point_at(unsigned_part(s), p)
}

/// A ratio with its slash at `p`: an integer, and digits that are not all zero.
pub open spec fn ratio_at(s: Seq<char>, p: int) -> bool {
    &&& 0 <= p < s.len()
    &&& s[p] == '/'
    &&& is_big_int(s.take(p))
    &&& only_digits(s.skip(p + 1))
    &&& exists|i: int| p < i < s.len() && #[trigger] s[i] != '0'
}

/// A ratio of two integers, the second positive.
pub open spec fn is_ratio(s: Seq<char>) -> bool {
    exists|p: int| #[trigger] ratio_at(s, p)
}

fn digits_between(s: &Vec<char>, from: usize, to: usize) -> (r: bool)
    requires
        from <= to <= s@.len(),
    ensures
        r == only_digits(s@.subrange(from as int, to as int)),
{
    let ghost part = s@.subrange(from as int, to as int);
    let mut i: usize = from;
    while i < to
        invariant
            from <= i <= to <= s@.len(),
            part == s@.subrange(from as int, to as int),
            forall|j: int| 0 <= j < i - from ==> is_digit(#[trigger] part[j]),
        decreases to - i,
    {
        let c: char = s[i];
        assert(part[i - from] == c);
        if !('0' <= c && c <= '9') {
            return false;
        }
        i = i + 1;
    }
    true
}

fn sign_length(s: &Vec<char>) -> (r: usize)
    ensures
        r <= s@.len(),
        unsigned_part(s@) == s@.skip(r as int),
{
    if s.len() > 0 && (s[0] == '+' || s[0] == '-') {
        1
    } else {
        assert(s@.skip(0) =~= s@);
        0
    }
}

fn big_int(s: &Vec<char>, to: usize) -> (r: bool)
    requires
        to <= s@.len(),
    ensures
        r == is_big_int(s@.take(to as int)),
{
    let ghost text = s@.take(to as int);
    let from: usize = if to > 0 && (s[0] == '+' || s[0] == '-') {
        1
    } else {
        0
    };
    assert(text.len() > 0 ==> text[0] == s@[0]);
    assert(unsigned_part(text) =~= s@.subrange(from as int, to as int));
    from < to && digits_between(s, from, to)
}

fn big_decimal(s: &Vec<char>) -> (r: bool)
    ensures
        r == is_big_decimal(s@),
{
    assert(s@.take(s@.len() as int) =~= s@);
    if big_int(s, s.len()) {
        return true;
    }
    let from: usize = sign_length(s);
    let ghost u = unsigned_part(s@);
    let mut p: usize = from;
    while p < s.len() && s[p] != '.'
        invariant
            from <= p <= s@.len(),
            u == s@.skip(from as int),
            forall|j: int| 0 <= j < p - from ==> #[trigger] u[j] != '.',
        decreases s.len() - p,
    {
        assert(u[p - from] == s@[p as int]);
        p = p + 1;
    }
    if p == s.len() {
        return false;
    }
    assert(u[p - from] == '.');
    let r = p > from && digits_between(s, from, p) && digits_between(s, p + 1, s.len());
    proof {
        assert(u.take(p - from) =~= s@.subrange(from as int, p as int));
        assert(u.skip(p - from + 1) =~= s@.subrange(p + 1, s@.len() as int));
        assert(r == point_at(u, p - from));
        assert forall|q: int| #[trigger] point_at(u, q) implies q == p - from by {
            if q > p - from {
                assert(u.take(q)[p - from] == '.');
            }
        }
    }
    r
}

fn big_ratio(s: &Vec<char>) -> (r: bool)
    ensures
        r == is_ratio(s@),
{
    let mut p: usize = 0;
    while p < s.len() && s[p] != '/'
        invariant
            p <= s@.len(),
            forall|j: int| 0 <= j < p ==> #[trigger] s@[j] != '/',
        decreases s.len() - p,
    {
        p = p + 1;
    }
    if p == s.len() {
        return false;
    }
    let mut nonzero = false;
    let mut i: usize = p + 1;
    while i < s.len()
        invariant
            p < i <= s@.len(),
            nonzero == exists|j: int| p < j < i && #[trigger] s@[j] != '0',
        decreases s.len() - i,
    {
        if s[i] != '0' {
            nonzero = true;
            assert(s@[i as int] != '0');
        }
        i = i + 1;
    }
    let r = big_int(s, p) && digits_between(s, p + 1, s.len()) && nonzero;
    proof {
        assert(s@.skip(p + 1) =~= s@.subrange(p + 1, s@.len() as int));
        assert(r == ratio_at(s@, p as int));
        assert forall|q: int| #[trigger] ratio_at(s@, q) implies q == p by {
            if q > p {
                let t = s@.take(q);
                assert(t[p as int] == '/');
                let u = unsigned_part(t);
                if t.len() > 0 && (t[0] == '+' || t[0] == '-') {
                    assert(u[p - 1] == '/');
                } else {
                    assert(u[p as int] == '/');
                }
            }
        }
    }
    r
}

/// The value of a number literal: the number, or nil where the text writes none.
pub open spec fn big_number_val(k: TreeKind) -> Val {
    match k {
        TreeKind::BigInt(s) => if is_big_int(s) {
            Val::BigInt(s)
        } else {
            Val::Nil
        },
        TreeKind::BigDecimal(s) => if is_big_decimal(s) {
            Val::BigDecimal(s)
        } else {
            Val::Nil
        },
        TreeKind::Ratio(s) => if is_ratio(s) {
            Val::Ratio(s)
        } else {
            Val::Nil
        },
        _ => Val::Nil,
    }
}

fn parse_bigint(s: &str) -> (r: Value)
    ensures
        r.view() == big_number_val(TreeKind::BigInt(s@)),
{
    let letters = chars_of(s);
    assert(s@.take(s@.len() as int) =~= s@);
    if big_int(&letters, letters.len()) {
        Value::BigInt(text_copy(s))
    } else {
        Value::Nil
    }
}

fn parse_bigdecimal(s: &str) -> (r: Value)
    ensures
        r.view() == big_number_val(TreeKind::BigDecimal(s@)),
{
    if big_decimal(&chars_of(s)) {
        Value::BigDecimal(text_copy(s))
    } else {
        Value::Nil
    }
}

fn parse_ratio(s: &str) -> (r: Value)
    ensures
        r.view() == big_number_val(TreeKind::Ratio(s@)),
{
    if big_ratio(&chars_of(s)) {
        Value::Ratio(text_copy(s))
    } else {
        Value::Nil
    }
}

// ---------------------------------------------------------------------------
// Outside parsers
// ---------------------------------------------------------------------------

/// The number of the UUID that a text writes, in any of the forms that the `uuid` crate reads.
pub uninterp spec fn uuid_number(s: Seq<char>) -> Option<u128>;

/// `Uuid::parse_str` and `Uuid::as_u128`: the number of the UUID that `s` writes, if it writes one.
#[verifier::external_body]
fn uuid_of(s: &str) -> (r: Option<u128>)
    ensures
        r == uuid_number(s@),
{
    match uuid::Uuid::parse_str(s) {
        Ok(u) => Some(u.as_u128()),
        Err(_) => None,
    }
}

/// The text is a regular expression that the `regex` crate compiles.
pub uninterp spec fn regex_compiles(s: Seq<char>) -> bool;

/// `Regex::new`: whether the pattern compiles.
#[verifier::external_body]
fn pattern_compiles(s: &str) -> (r: bool)
    ensures
        r == regex_compiles(s@),
{
    regex::Regex::new(s).is_ok()
}

/// The value of a regex literal: the pattern, or nil where it does not compile.
pub fn regex_value(source: &str, compiles: bool) -> (r: Value)
    ensures
        r.view() == if compiles {
            Val::Pattern(source@)
        } else {
            Val::Nil
        },
{
    if compiles {
        Value::Pattern(text_copy(source))
    } else {
        Value::Nil
    }
}

/// The value of a `#uuid` literal: the UUID, or the text itself where it writes none.
pub fn uuid_value(text: &str, number: Option<u128>) -> (r: Value)
    ensures
        r.view() == match number {
            Some(n) => Val::Uuid(n),
            None => Val::Str(text@),
        },
{
    match number {
        Some(n) => Value::Uuid(n),
        None => Value::Str(text_copy(text)),
    }
}

// ---------------------------------------------------------------------------
// Collections under construction
// ---------------------------------------------------------------------------

/// The value under a key of a map.
pub fn find_entry<'a>(pairs: &'a Vec<(Value, Value)>, key: &Value) -> (r: Option<&'a Value>)
    ensures
        (match r {
            Some(v) => Some(v.view()),
            None => None,
        }) == entry_value(pair_vals(pairs@), key.view()),
{
    let ghost all = pair_vals(pairs@);
    let mut i: usize = pairs.len();
    assert(all.take(i as int) =~= all);
    while i > 0
        invariant
            i <= pairs@.len(),
            all == pair_vals(pairs@),
            key_position(all, key.view()) == key_position(all.take(i as int), key.view()),
        decreases i,
    {
        assert(all.take(i as int).drop_last() =~= all.take(i - 1));
        assert(all.take(i as int).last() == all[i - 1]);
        if equal(&pairs[i - 1].0, key) {
            return Some(&pairs[i - 1].1);
        }
        i = i - 1;
    }
    None
}

/// Bind `key` to `value` in a map literal.
pub fn bind(pairs: &mut Vec<(Value, Value)>, key: Value, value: Value)
    ensures
        pair_vals(final(pairs)@) == with_entry(pair_vals(old(pairs)@), key.view(), value.view()),
{
    let ghost before = pair_vals(pairs@);
    let ghost entry = (key.view(), value.view());
    let mut i: usize = pairs.len();
    assert(before.take(before.len() as int) =~= before);
    while i > 0
        invariant
            i <= pairs@.len(),
            before == pair_vals(pairs@),
            pairs@ == old(pairs)@,
            entry == (key.view(), value.view()),
            key_position(before, key.view()) == key_position(before.take(i as int), key.view()),
        decreases i,
    {
        i = i - 1;
        proof {
            let seen = before.take(i + 1);
            assert(seen.drop_last() =~= before.take(i as int));
            assert(seen.last() == before[i as int]);
        }
        if equal(&pairs[i].0, &key) {
            pairs.set(i, (key, value));
            assert(pair_vals(pairs@) =~= before.update(i as int, entry));
            return;
        }
    }
    assert(before.take(0) =~= Seq::empty());
    pairs.push((key, value));
    assert(pair_vals(pairs@) =~= before.push(entry));
}

/// Add a value to a set literal.
pub fn add_item(items: &mut Vec<Value>, v: Value)
    ensures
        vals(final(items)@) == with_item(vals(old(items)@), v.view()),
{
    let ghost before = vals(items@);
    proof {
        lemma_item_position(before, v.view());
    }
    for i in 0..items.len()
        invariant
            before == vals(items@),
            items@ == old(items)@,
            item_position(before, v.view()) is None ==> forall|j: int|
                0 <= j < before.len() ==> !same(#[trigger] before[j], v.view()),
            item_position(before, v.view()) matches Some(p) ==> 0 <= p < before.len() && same(
                before[p],
                v.view(),
            ),
            forall|j: int| 0 <= j < i ==> !same(#[trigger] before[j], v.view()),
    {
        if equal(&items[i], &v) {
            assert(same(before[i as int], v.view()));
            return;
        }
    }
    let ghost x = v.view();
    items.push(v);
    assert(vals(items@) =~= before.push(x));
}

// ---------------------------------------------------------------------------
// Heights: what makes the conversion end
// ---------------------------------------------------------------------------

pub open spec fn larger_of(a: nat, b: nat) -> nat {
    if a < b {
        b
    } else {
        a
    }
}

/// How deep a form nests; an anonymous function counts for what it expands to.
pub open spec fn height(t: Tree) -> nat
    decreases t,
{
    match t.kind {
        TreeKind::Items(_, c) => 1 + heights(c),
        TreeKind::Wrapped(_, inner) => 1 + height(*inner),
        TreeKind::TaggedLiteral(_, inner) => 1 + height(*inner),
        TreeKind::Meta(m, inner) => 1 + larger_of(height(*m), height(*inner)),
        TreeKind::AnonFn(body) => 3 + heights(body),
        TreeKind::ReaderCond(_, c) => 1 + heights(c),
        _ => 0,
    }
}

/// How deep the deepest of the forms nests.
pub open spec fn heights(ts: Seq<Tree>) -> nat
    decreases ts,
{
    if ts.len() == 0 {
        0
    } else {
        larger_of(heights(ts.drop_last()), height(ts.last()))
    }
}

pub proof fn lemma_heights(ts: Seq<Tree>)
    ensures
        forall|i: int| 0 <= i < ts.len() ==> height(#[trigger] ts[i]) <= heights(ts),
    decreases ts.len(),
{
    if ts.len() > 0 {
        let rest = ts.drop_last();
        lemma_heights(rest);
        assert forall|i: int| 0 <= i < ts.len() implies height(#[trigger] ts[i]) <= heights(ts) by {
            if i < rest.len() {
                assert(rest[i] == ts[i]);
            }
        }
    }
}

proof fn lemma_heights_bound(ts: Seq<Tree>, h: nat)
    requires
        forall|i: int| 0 <= i < ts.len() ==> height(#[trigger] ts[i]) <= h,
    ensures
        heights(ts) <= h,
    decreases ts.len(),
{
    if ts.len() > 0 {
        let rest = ts.drop_last();
        assert forall|i: int| 0 <= i < rest.len() implies height(#[trigger] rest[i]) <= h by {
            assert(rest[i] == ts[i]);
        }
        lemma_heights_bound(rest, h);
        assert(height(ts[ts.len() - 1]) <= h);
    }
}

proof fn lemma_expanded_form_height(t: Tree, features: Option<Seq<Seq<char>>>)
    ensures
        forall|i: int|
            0 <= i < expanded_form(t, features).len() ==> height(
                #[trigger] expanded_form(t, features)[i],
            ) <= height(t),
    decreases t,
{
    match t.kind {
        TreeKind::ReaderCond(splicing, clauses) => {
            lemma_branch_from(clauses, features, 0);
            lemma_heights(clauses);
            match branch_from(clauses, features, 0) {
                Some(b) => {
                    assert(height(clauses[b]) <= heights(clauses));
                    match clauses[b].kind {
                        TreeKind::Items(bracket, elems) => {
                            assert(decreases_to!(t => clauses[b].kind));
                            lemma_expanded_height(elems, features);
                            assert(height(clauses[b]) == 1 + heights(elems));
                            if splicing && (bracket is List || bracket is Vector) {
                                let all = expanded(elems, features);
                                assert(expanded_form(t, features) == all);
                                assert forall|i: int| 0 <= i < all.len() implies height(
                                    #[trigger] all[i],
                                ) <= height(t) by {}
                            } else {
                                assert(expanded_form(t, features) == seq![clauses[b]]);
                            }
                        },
                        _ => {
                            assert(expanded_form(t, features) == seq![clauses[b]]);
                        },
                    }
                },
                None => {},
            }
        },
        _ => {},
    }
}

/// Expanding conditionals nests no deeper.
proof fn lemma_expanded_height(ts: Seq<Tree>, features: Option<Seq<Seq<char>>>)
    ensures
        forall|i: int|
            0 <= i < expanded(ts, features).len() ==> height(#[trigger] expanded(ts, features)[i])
                <= heights(ts),
    decreases ts,
{
    if ts.len() > 0 {
        lemma_expanded_height(ts.drop_last(), features);
        lemma_expanded_form_height(ts.last(), features);
        let first = expanded(ts.drop_last(), features);
        let second = expanded_form(ts.last(), features);
        assert(expanded(ts, features) == first + second);
        assert forall|i: int| 0 <= i < expanded(ts, features).len() implies height(
            #[trigger] expanded(ts, features)[i],
        ) <= heights(ts) by {
            if i < first.len() {
                assert(expanded(ts, features)[i] == first[i]);
            } else {
                assert(expanded(ts, features)[i] == second[i - first.len()]);
            }
        }
    }
}

proof fn lemma_all_rewritten_height(ts: Seq<Tree>, span: Place)
    ensures
        heights(all_rewritten(ts, span)) <= heights(ts),
    decreases ts,
{
    if ts.len() > 0 {
        let after = all_rewritten(ts, span);
        assert(after.drop_last() =~= all_rewritten(ts.drop_last(), span));
        assert(after.last() == rewritten(ts.last(), span));
        lemma_all_rewritten_height(ts.drop_last(), span);
        lemma_rewritten_height(ts.last(), span);
    }
}

/// Replacing references nests no deeper.
proof fn lemma_rewritten_height(t: Tree, span: Place)
    ensures
        height(rewritten(t, span)) <= height(t),
    decreases t,
{
    match t.kind {
        TreeKind::Items(_, c) => {
            lemma_all_rewritten_height(c, span);
            assert(rewritten(t, span).kind->Items_1 =~= all_rewritten(c, span));
        },
        TreeKind::Wrapped(_, inner) => lemma_rewritten_height(*inner, span),
        TreeKind::TaggedLiteral(_, inner) => lemma_rewritten_height(*inner, span),
        TreeKind::Meta(m, inner) => {
            lemma_rewritten_height(*m, span);
            lemma_rewritten_height(*inner, span);
        },
        TreeKind::ReaderCond(_, c) => {
            lemma_all_rewritten_height(c, span);
            assert(rewritten(t, span).kind->ReaderCond_1 =~= all_rewritten(c, span));
        },
        _ => {},
    }
}

/// The expansion of an anonymous function nests less deep than it counts for.
proof fn lemma_anon_fn_height(body: Seq<Tree>, span: Place)
    ensures
        height(anon_fn_tree(body, span)) < 3 + heights(body),
{
    let params = anon_params(body, span);
    assert forall|i: int| 0 <= i < params.len() implies height(#[trigger] params[i]) <= 0 by {}
    lemma_heights_bound(params, 0);
    lemma_all_rewritten_height(body, span);
    let t = anon_fn_tree(body, span);
    let parts = t.kind->Items_1;
    assert forall|i: int| 0 <= i < parts.len() implies height(#[trigger] parts[i]) <= 1 + heights(
        body,
    ) by {}
    lemma_heights_bound(parts, 1 + heights(body));
}

// ---------------------------------------------------------------------------
// The value of a form
// ---------------------------------------------------------------------------

/// The symbol that a reader macro stands for.
pub open spec fn sugar_name(s: Sugar) -> Seq<char> {
    match s {
        Sugar::Quote => "quote"@,
        Sugar::SyntaxQuote => "syntax-quote"@,
        Sugar::Unquote => "unquote"@,
        Sugar::UnquoteSplice => "unquote-splicing"@,
        Sugar::Deref => "deref"@,
        Sugar::Var => "var"@,
    }
}

/// A name without a namespace.
pub open spec fn simple_name(name: Seq<char>) -> NameView {
    NameView { namespace: None, name }
}

/// The values of the forms one by one, each nesting less deep than `h`. (The test against `h` is
/// what makes the definition end; it always holds where the definition is used.)
pub open spec fn form_vals(ts: Seq<Tree>, features: Option<Seq<Seq<char>>>, h: nat) -> Seq<Val>
    decreases h, 0nat,
{
    Seq::new(
        ts.len(),
        |i: int|
            if 0 <= i < ts.len() && height(ts[i]) < h {
                form_val(ts[i], features)
            } else {
                arbitrary()
            },
    )
}

/// The entries of a map literal: keys and values in turn, a later equal key over an earlier one.
pub open spec fn literal_entries(v: Seq<Val>, n: nat) -> Seq<(Val, Val)>
    decreases n,
{
    if n == 0 {
        Seq::empty()
    } else {
        with_entry(literal_entries(v, (n - 1) as nat), v[2 * n - 2], v[2 * n - 1])
    }
}

/// The elements of a set literal.
pub open spec fn literal_items(v: Seq<Val>) -> Seq<Val>
    decreases v.len(),
{
    if v.len() == 0 {
        Seq::empty()
    } else {
        with_item(literal_items(v.drop_last()), v.last())
    }
}

/// The literal value of a form.
pub open spec fn form_val(t: Tree, features: Option<Seq<Seq<char>>>) -> Val
    decreases height(t), 1nat,
{
    match t.kind {
        TreeKind::Nil => Val::Nil,
        TreeKind::Bool(b) => Val::Bool(b),
        TreeKind::Int(n) => Val::Long(n),
        TreeKind::Float(f) => Val::Double(f),
        TreeKind::Symbolic(f) => Val::Double(f),
        TreeKind::Str(s) => Val::Str(s),
        TreeKind::Char(c) => Val::Char(c),
        TreeKind::BigInt(_) => big_number_val(t.kind),
        TreeKind::BigDecimal(_) => big_number_val(t.kind),
        TreeKind::Ratio(_) => big_number_val(t.kind),
        TreeKind::Symbol(s) => Val::Symbol(parsed_name(s)),
        TreeKind::Keyword(s) => Val::Keyword(parsed_name(s)),
        TreeKind::AutoKeyword(s) => Val::Keyword(simple_name(s)),
        TreeKind::Regex(s) => if regex_compiles(s) {
            Val::Pattern(s)
        } else {
            Val::Nil
        },
        TreeKind::Items(Bracket::List, c) => Val::List(
            form_vals(expanded(c, features), features, height(t)),
        ),
        TreeKind::Items(Bracket::Vector, c) => Val::Vector(
            form_vals(expanded(c, features), features, height(t)),
        ),
        TreeKind::Items(Bracket::MapLit, c) => Val::HashMap(
            literal_entries(form_vals(c, features, height(t)), (c.len() / 2) as nat),
        ),
        TreeKind::Items(Bracket::SetLit, c) => Val::HashSet(
            literal_items(form_vals(c, features, height(t))),
        ),
        TreeKind::Wrapped(s, inner) => Val::List(
            seq![Val::Symbol(simple_name(sugar_name(s))), form_val(*inner, features)],
        ),
        TreeKind::Meta(_, inner) => form_val(*inner, features),
        TreeKind::AnonFn(body) => if height(anon_fn_tree(body, t.span)) < height(t) {
            form_val(anon_fn_tree(body, t.span), features)
        } else {
            arbitrary()
        },
        TreeKind::TaggedLiteral(tag, inner) => if tag == "uuid"@ && inner.kind is Str
            && uuid_number(inner.kind->Str_0) is Some {
            Val::Uuid(uuid_number(inner.kind->Str_0)->0)
        } else {
            form_val(*inner, features)
        },
        TreeKind::ReaderCond(splicing, clauses) => match branch_from(clauses, features, 0) {
            Some(b) => if !splicing && height(clauses[b]) < height(t) {
                form_val(clauses[b], features)
            } else {
                Val::Nil
            },
            None => Val::Nil,
        },
    }
}

/// The values of the forms one by one.
fn values_of(forms: &Vec<Form>, features: &ReaderFeatures, Ghost(h): Ghost<nat>) -> (r: Vec<Value>)
    requires
        heights(trees(forms@)) < h,
    ensures
        vals(r@) == form_vals(trees(forms@), features.view(), h),
    decreases h, 0nat,
{
    let mut r: Vec<Value> = Vec::new();
    proof {
        lemma_heights(trees(forms@));
    }
    let mut i: usize = 0;
    while i < forms.len()
        invariant
            i <= forms.len(),
            heights(trees(forms@)) < h,
            forall|j: int|
                0 <= j < forms@.len() ==> height(#[trigger] trees(forms@)[j]) <= heights(
                    trees(forms@),
                ),
            r@.len() == i,
            forall|j: int|
                0 <= j < i ==> (#[trigger] r@[j]).view() == form_val(
                    trees(forms@)[j],
                    features.view(),
                ),
        decreases forms.len() - i,
    {
        assert(height(trees(forms@)[i as int]) < h);
        r.push(form_to_value(&forms[i], features));
        i = i + 1;
    }
    proof {
        let all = form_vals(trees(forms@), features.view(), h);
        assert(vals(r@).len() == all.len());
        assert forall|j: int| 0 <= j < all.len() implies vals(r@)[j] == #[trigger] all[j] by {
            assert(r@[j].view() == form_val(trees(forms@)[j], features.view()));
            assert(height(trees(forms@)[j]) < h);
        }
        assert(vals(r@) =~= all);
    }
    r
}

fn map_value(values: Vec<Value>) -> (r: Value)
    ensures
        r.view() == Val::HashMap(literal_entries(vals(values@), (values@.len() / 2) as nat)),
{
    let total: usize = values.len();
    let n: usize = total / 2;
    let mut pairs: Vec<(Value, Value)> = Vec::new();
    assert(pair_vals(pairs@) =~= Seq::empty());
    for i in 0..n
        invariant
            n == values@.len() / 2,
            2 * n <= values@.len() <= usize::MAX,
            pair_vals(pairs@) == literal_entries(vals(values@), i as nat),
    {
        bind(&mut pairs, value_copy(&values[2 * i]), value_copy(&values[2 * i + 1]));
        assert(vals(values@)[2 * (i + 1) - 2] == values@[2 * i as int].view());
    }
    let r = Value::HashMap(pairs);
    proof {
        lemma_views(r);
    }
    r
}

fn set_value(values: Vec<Value>) -> (r: Value)
    ensures
        r.view() == Val::HashSet(literal_items(vals(values@))),
{
    let ghost all = vals(values@);
    let mut items: Vec<Value> = Vec::new();
    assert(vals(items@) =~= Seq::empty());
    assert(all.take(0) =~= Seq::empty());
    for i in 0..values.len()
        invariant
            all == vals(values@),
            vals(items@) == literal_items(all.take(i as int)),
    {
        proof {
            let seen = all.take(i + 1);
            assert(seen.drop_last() =~= all.take(i as int));
            assert(seen.last() == all[i as int]);
        }
        add_item(&mut items, value_copy(&values[i]));
    }
    assert(all.take(all.len() as int) =~= all);
    let r = Value::HashSet(items);
    proof {
        lemma_views(r);
    }
    r
}

fn wrapped_value(name: &str, inner: Value) -> (r: Value)
    ensures
        r.view() == Val::List(seq![Val::Symbol(simple_name(name@)), inner.view()]),
{
    let ghost v = inner.view();
    let mut parts: Vec<Value> = Vec::new();
    parts.push(Value::Symbol(Name::simple(name)));
    parts.push(inner);
    let r = Value::List(parts);
    proof {
        lemma_views(r);
        assert(vals(parts@) =~= seq![Val::Symbol(simple_name(name@)), v]);
    }
    r
}

fn list_value(values: Vec<Value>) -> (r: Value)
    ensures
        r.view() == Val::List(vals(values@)),
{
    let r = Value::List(values);
    proof {
        lemma_views(r);
    }
    r
}

fn vector_of(values: Vec<Value>) -> (r: Value)
    ensures
        r.view() == Val::Vector(vals(values@)),
{
    let r = Value::Vector(values);
    proof {
        lemma_views(r);
    }
    r
}

/// The value of a form that holds no others.
fn atom_value(form: &Form) -> (r: Option<Value>)
    ensures
        match r {
            Some(v) => height(form.view()) == 0 && forall|features: Option<Seq<Seq<char>>>|
                v.view() == #[trigger] form_val(form.view(), features),
            None => form.view().kind is Items || form.view().kind is Wrapped
                || form.view().kind is Meta || form.view().kind is AnonFn
                || form.view().kind is TaggedLiteral || form.view().kind is ReaderCond,
        },
{
    match &form.kind {
        FormKind::Nil => Some(Value::Nil),
        FormKind::Bool(b) => Some(Value::Bool(*b)),
        FormKind::Int(n) => Some(Value::Long(*n)),
        FormKind::Float(f) => Some(Value::Double(*f)),
        FormKind::Symbolic(f) => Some(Value::Double(*f)),
        FormKind::Str(s) => Some(Value::Str(s.clone())),
        FormKind::Char(c) => Some(Value::Char(*c)),
        FormKind::BigInt(s) => Some(parse_bigint(s.as_str())),
        FormKind::BigDecimal(s) => Some(parse_bigdecimal(s.as_str())),
        FormKind::Ratio(s) => Some(parse_ratio(s.as_str())),
        FormKind::Symbol(s) => Some(Value::Symbol(Name::parse(s.as_str()))),
        FormKind::Keyword(s) => Some(Value::Keyword(Name::parse(s.as_str()))),
        FormKind::AutoKeyword(s) => Some(Value::Keyword(Name::simple(s.as_str()))),
        FormKind::Regex(s) => Some(regex_value(s.as_str(), pattern_compiles(s.as_str()))),
        _ => None,
    }
}

/// Convert a form to its literal value without evaluating. Used by `quote` and macro expansion.
pub fn form_to_value(form: &Form, features: &ReaderFeatures) -> (r: Value)
    ensures
        r.view() == form_val(form.view(), features.view()),
    decreases height(form.view()), 1nat,
{
    match atom_value(form) {
        Some(v) => {
            return v;
        },
        None => {},
    }
    let ghost h = height(form.view());
    proof {
        lemma_form_views(form.kind);
    }
    match &form.kind {
        FormKind::List(forms) => {
            let all = expand_reader_conds(forms, features);
            proof {
                lemma_expanded_height(trees(forms@), features.view());
                lemma_heights_bound(trees(all@), heights(trees(forms@)));
            }
            list_value(values_of(&all, features, Ghost(h)))
        },
        FormKind::Vector(forms) => {
            let all = expand_reader_conds(forms, features);
            proof {
                lemma_expanded_height(trees(forms@), features.view());
                lemma_heights_bound(trees(all@), heights(trees(forms@)));
            }
            vector_of(values_of(&all, features, Ghost(h)))
        },
        FormKind::MapLit(forms) => {
            let values = values_of(forms, features, Ghost(h));
            assert(values@.len() == vals(values@).len());
            map_value(values)
        },
        FormKind::SetLit(forms) => set_value(values_of(forms, features, Ghost(h))),
        FormKind::Quote(inner) => wrapped_value("quote", form_to_value(inner, features)),
        FormKind::SyntaxQuote(inner) => wrapped_value(
            "syntax-quote",
            form_to_value(inner, features),
        ),
        FormKind::Unquote(inner) => wrapped_value("unquote", form_to_value(inner, features)),
        FormKind::UnquoteSplice(inner) => wrapped_value(
            "unquote-splicing",
            form_to_value(inner, features),
        ),
        FormKind::Deref(inner) => wrapped_value("deref", form_to_value(inner, features)),
        FormKind::Var(inner) => wrapped_value("var", form_to_value(inner, features)),
        FormKind::Meta(_, inner) => form_to_value(inner, features),
        FormKind::AnonFn(body) => {
            proof {
                lemma_anon_fn_height(trees(body@), form.span.view());
            }
            let whole = expand_anon_fn(body, &form.span);
            form_to_value(&whole, features)
        },
        FormKind::TaggedLiteral(tag, inner) => {
            if same_text(tag.as_str(), "uuid") {
                match &inner.kind {
                    FormKind::Str(s) => {
                        let number = uuid_of(s.as_str());
                        assert(form_val(inner.view(), features.view()) == Val::Str(s@));
                        return uuid_value(s.as_str(), number);
                    },
                    _ => {},
                }
            }
            form_to_value(inner, features)
        },
        FormKind::ReaderCond { splicing, clauses } => {
            proof {
                lemma_branch_from(trees(clauses@), features.view(), 0);
                lemma_heights(trees(clauses@));
            }
            if *splicing {
                return Value::Nil;
            }
            match select_reader_cond(clauses, features) {
                Some(branch) => form_to_value(branch, features),
                None => Value::Nil,
            }
        },
        _ => Value::Nil,
    }
}

} // verus!
