//! Runtime values and their equality.

use vstd::prelude::*;
use crate::bytes::{bytes_copy, same_bytes};
use crate::codec::{double_is_nan, doubles_equal, same_double};
use crate::rng::{fnv1a, fnv1a_64};
use crate::text::{same_text, text_copy};

verus! {

/// A possibly qualified name, as keywords and symbols carry it.
#[derive(Debug)]
pub struct Name {
    pub namespace: Option<String>,
    pub name: String,
}

/// What a [`Name`] holds.
pub struct NameView {
    pub namespace: Option<Seq<char>>,
    pub name: Seq<char>,
}

/// One runtime value. Doubles are held as their IEEE 754 bit patterns. A value carries no metadata:
/// a caller that has some takes it off first.
#[derive(Debug)]
pub enum Value {
    Nil,
    Bool(bool),
    Long(i64),
    Double(u64),
    /// An arbitrary-precision integer, in decimal.
    BigInt(String),
    /// An arbitrary-precision decimal number, as text.
    BigDecimal(String),
    /// A ratio, as `numerator/denominator`.
    Ratio(String),
    Char(char),
    Str(String),
    Keyword(Name),
    Symbol(Name),
    /// Epoch milliseconds.
    Instant(i64),
    Uuid(u128),
    /// A regular expression, as its source.
    Pattern(String),
    List(Vec<Value>),
    Vector(Vec<Value>),
    /// The entries in insertion order.
    HashMap(Vec<(Value, Value)>),
    /// The elements in insertion order.
    HashSet(Vec<Value>),
    ByteArray(Vec<u8>),
    LongArray(Vec<i64>),
    DoubleArray(Vec<u64>),
    ObjectArray(Vec<Value>),
    /// A host object, by its handle.
    NativeObject(u64),
    /// A host resource, by its handle.
    Resource(u64),
}

/// What a [`Value`] holds.
pub enum Val {
    Nil,
    Bool(bool),
    Long(i64),
    Double(u64),
    BigInt(Seq<char>),
    BigDecimal(Seq<char>),
    Ratio(Seq<char>),
    Char(char),
    Str(Seq<char>),
    Keyword(NameView),
    Symbol(NameView),
    Instant(i64),
    Uuid(u128),
    Pattern(Seq<char>),
    List(Seq<Val>),
    Vector(Seq<Val>),
    HashMap(Seq<(Val, Val)>),
    HashSet(Seq<Val>),
    ByteArray(Seq<u8>),
    LongArray(Seq<i64>),
    DoubleArray(Seq<u64>),
    ObjectArray(Seq<Val>),
    NativeObject(u64),
    Resource(u64),
}

impl Name {
    /// What the name holds.
    pub open spec fn view(&self) -> NameView {
        NameView {
            namespace: match self.namespace {
                Some(n) => Some(n@),
                None => None,
            },
            name: self.name@,
        }
    }

    /// A name without a namespace.
    pub fn simple(name: &str) -> (r: Name)
        ensures
            r.view() == (NameView { namespace: None, name: name@ }),
    {
        Name { namespace: None, name: text_copy(name) }
    }

    /// A name within a namespace.
    pub fn qualified(namespace: &str, name: &str) -> (r: Name)
        ensures
            r.view() == (NameView { namespace: Some(namespace@), name: name@ }),
    {
        Name { namespace: Some(text_copy(namespace)), name: text_copy(name) }
    }
}

impl Clone for Name {
    fn clone(&self) -> (r: Self)
        ensures
            r.view() == self.view(),
    {
        Name {
            namespace: match &self.namespace {
                Some(n) => Some(n.clone()),
                None => None,
            },
            name: self.name.clone(),
        }
    }
}

fn same_name(a: &Name, b: &Name) -> (r: bool)
    ensures
        r == (a.view() == b.view()),
{
    let same_namespace = match (&a.namespace, &b.namespace) {
        (Some(x), Some(y)) => same_text(x.as_str(), y.as_str()),
        (None, None) => true,
        _ => false,
    };
    same_namespace && same_text(a.name.as_str(), b.name.as_str())
}

impl Value {
    /// What the value holds.
    pub open spec fn view(&self) -> Val
        decreases self,
    {
        match self {
            Value::Nil => Val::Nil,
            Value::Bool(b) => Val::Bool(*b),
            Value::Long(n) => Val::Long(*n),
            Value::Double(d) => Val::Double(*d),
            Value::BigInt(s) => Val::BigInt(s@),
            Value::BigDecimal(s) => Val::BigDecimal(s@),
            Value::Ratio(s) => Val::Ratio(s@),
            Value::Char(c) => Val::Char(*c),
            Value::Str(s) => Val::Str(s@),
            Value::Keyword(n) => Val::Keyword(n.view()),
            Value::Symbol(n) => Val::Symbol(n.view()),
            Value::Instant(n) => Val::Instant(*n),
            Value::Uuid(n) => Val::Uuid(*n),
            Value::Pattern(s) => Val::Pattern(s@),
            Value::List(items) => Val::List(
                Seq::new(
                    items@.len(),
                    |i: int| if 0 <= i < items@.len() { items@[i].view() } else { arbitrary() },
                ),
            ),
            Value::Vector(items) => Val::Vector(
                Seq::new(
                    items@.len(),
                    |i: int| if 0 <= i < items@.len() { items@[i].view() } else { arbitrary() },
                ),
            ),
            Value::HashMap(pairs) => Val::HashMap(
                Seq::new(
                    pairs@.len(),
                    |i: int|
                        if 0 <= i < pairs@.len() {
                            (pairs@[i].0.view(), pairs@[i].1.view())
                        } else {
                            arbitrary()
                        },
                ),
            ),
            Value::HashSet(items) => Val::HashSet(
                Seq::new(
                    items@.len(),
                    |i: int| if 0 <= i < items@.len() { items@[i].view() } else { arbitrary() },
                ),
            ),
            Value::ByteArray(a) => Val::ByteArray(a@),
            Value::LongArray(a) => Val::LongArray(a@),
            Value::DoubleArray(a) => Val::DoubleArray(a@),
            Value::ObjectArray(items) => Val::ObjectArray(
                Seq::new(
                    items@.len(),
                    |i: int| if 0 <= i < items@.len() { items@[i].view() } else { arbitrary() },
                ),
            ),
            Value::NativeObject(h) => Val::NativeObject(*h),
            Value::Resource(h) => Val::Resource(*h),
        }
    }
}

/// What each value of `items` holds.
pub open spec fn vals(items: Seq<Value>) -> Seq<Val> {
    Seq::new(items.len(), |i: int| items[i].view())
}

/// What each pair of `pairs` holds.
pub open spec fn pair_vals(pairs: Seq<(Value, Value)>) -> Seq<(Val, Val)> {
    Seq::new(pairs.len(), |i: int| (pairs[i].0.view(), pairs[i].1.view()))
}

/// The view of a collection is the views of its elements.
pub proof fn lemma_views(v: Value)
    ensures
        v matches Value::List(items) ==> v.view() == Val::List(vals(items@)),
        v matches Value::Vector(items) ==> v.view() == Val::Vector(vals(items@)),
        v matches Value::HashSet(items) ==> v.view() == Val::HashSet(vals(items@)),
        v matches Value::ObjectArray(items) ==> v.view() == Val::ObjectArray(vals(items@)),
        v matches Value::HashMap(pairs) ==> v.view() == Val::HashMap(pair_vals(pairs@)),
{
    match v {
        Value::List(items) => assert(v.view()->List_0 =~= vals(items@)),
        Value::Vector(items) => assert(v.view()->Vector_0 =~= vals(items@)),
        Value::HashSet(items) => assert(v.view()->HashSet_0 =~= vals(items@)),
        Value::ObjectArray(items) => assert(v.view()->ObjectArray_0 =~= vals(items@)),
        Value::HashMap(pairs) => assert(v.view()->HashMap_0 =~= pair_vals(pairs@)),
        _ => {},
    }
}

fn copy_longs(a: &Vec<i64>) -> (r: Vec<i64>)
    ensures
        r@ == a@,
{
    let mut r: Vec<i64> = Vec::new();
    for i in 0..a.len()
        invariant
            r@ == a@.take(i as int),
    {
        r.push(a[i]);
        assert(a@.take(i + 1) =~= a@.take(i as int).push(a@[i as int]));
    }
    assert(a@.take(a@.len() as int) =~= a@);
    r
}

fn copy_bits(a: &Vec<u64>) -> (r: Vec<u64>)
    ensures
        r@ == a@,
{
    let mut r: Vec<u64> = Vec::new();
    for i in 0..a.len()
        invariant
            r@ == a@.take(i as int),
    {
        r.push(a[i]);
        assert(a@.take(i + 1) =~= a@.take(i as int).push(a@[i as int]));
    }
    assert(a@.take(a@.len() as int) =~= a@);
    r
}

/// A copy of a value.
pub fn value_copy(v: &Value) -> (r: Value)
    ensures
        r.view() == v.view(),
    decreases v, 0nat,
{
    match v {
        Value::Nil => Value::Nil,
        Value::Bool(b) => Value::Bool(*b),
        Value::Long(n) => Value::Long(*n),
        Value::Double(d) => Value::Double(*d),
        Value::BigInt(s) => Value::BigInt(s.clone()),
        Value::BigDecimal(s) => Value::BigDecimal(s.clone()),
        Value::Ratio(s) => Value::Ratio(s.clone()),
        Value::Char(c) => Value::Char(*c),
        Value::Str(s) => Value::Str(s.clone()),
        Value::Keyword(n) => Value::Keyword(n.clone()),
        Value::Symbol(n) => Value::Symbol(n.clone()),
        Value::Instant(n) => Value::Instant(*n),
        Value::Uuid(n) => Value::Uuid(*n),
        Value::Pattern(s) => Value::Pattern(s.clone()),
        Value::List(items) => {
            let r = Value::List(values_copy(items));
            proof {
                lemma_views(*v);
                lemma_views(r);
            }
            r
        },
        Value::Vector(items) => {
            let r = Value::Vector(values_copy(items));
            proof {
                lemma_views(*v);
                lemma_views(r);
            }
            r
        },
        Value::HashMap(pairs) => {
            let r = Value::HashMap(pairs_copy(pairs));
            proof {
                lemma_views(*v);
                lemma_views(r);
            }
            r
        },
        Value::HashSet(items) => {
            let r = Value::HashSet(values_copy(items));
            proof {
                lemma_views(*v);
                lemma_views(r);
            }
            r
        },
        Value::ByteArray(a) => Value::ByteArray(bytes_copy(a)),
        Value::LongArray(a) => Value::LongArray(copy_longs(a)),
        Value::DoubleArray(a) => Value::DoubleArray(copy_bits(a)),
        Value::ObjectArray(items) => {
            let r = Value::ObjectArray(values_copy(items));
            proof {
                lemma_views(*v);
                lemma_views(r);
            }
            r
        },
        Value::NativeObject(h) => Value::NativeObject(*h),
        Value::Resource(h) => Value::Resource(*h),
    }
}

/// A copy of a list of values.
pub fn values_copy(items: &Vec<Value>) -> (r: Vec<Value>)
    ensures
        vals(r@) == vals(items@),
    decreases items, 1nat,
{
    let mut r: Vec<Value> = Vec::new();
    let mut i: usize = 0;
    while i < items.len()
        invariant
            i <= items.len(),
            r@.len() == i,
            forall|j: int| 0 <= j < i ==> (#[trigger] r@[j]).view() == items@[j].view(),
        decreases items.len() - i,
    {
        assert(decreases_to!(items => items@[i as int]));
        r.push(value_copy(&items[i]));
        i = i + 1;
    }
    assert(vals(r@) =~= vals(items@));
    r
}

/// A copy of a list of pairs.
pub fn pairs_copy(pairs: &Vec<(Value, Value)>) -> (r: Vec<(Value, Value)>)
    ensures
        pair_vals(r@) == pair_vals(pairs@),
    decreases pairs, 1nat,
{
    let mut r: Vec<(Value, Value)> = Vec::new();
    let mut i: usize = 0;
    while i < pairs.len()
        invariant
            i <= pairs.len(),
            r@.len() == i,
            forall|j: int|
                0 <= j < i ==> (#[trigger] r@[j]).0.view() == pairs@[j].0.view() && r@[j].1.view()
                    == pairs@[j].1.view(),
        decreases pairs.len() - i,
    {
        assert(decreases_to!(pairs => pairs@[i as int].0));
        assert(decreases_to!(pairs => pairs@[i as int].1));
        r.push((value_copy(&pairs[i].0), value_copy(&pairs[i].1)));
        i = i + 1;
    }
    assert(pair_vals(r@) =~= pair_vals(pairs@));
    r
}

impl Clone for Value {
    fn clone(&self) -> (r: Self)
        ensures
            r.view() == self.view(),
    {
        value_copy(self)
    }
}

// ---------------------------------------------------------------------------
// Equality
// ---------------------------------------------------------------------------

/// Position `i` is related to one of the first `m` positions.
pub open spec fn has_right(rel: spec_fn(int, int) -> bool, m: nat, i: int) -> bool {
    exists|j: int| 0 <= j < m && #[trigger] rel(i, j)
}

/// One of the first `n` positions is related to position `j`.
pub open spec fn has_left(rel: spec_fn(int, int) -> bool, n: nat, j: int) -> bool {
    exists|i: int| 0 <= i < n && #[trigger] rel(i, j)
}

/// As many positions on both sides, each related to one of the other side.
#[verifier::opaque]
pub open spec fn in_any_order(n: nat, m: nat, rel: spec_fn(int, int) -> bool) -> bool {
    &&& n == m
    &&& forall|i: int| 0 <= i < n ==> #[trigger] has_right(rel, m, i)
    &&& forall|j: int| 0 <= j < m ==> #[trigger] has_left(rel, n, j)
}

/// As many positions on both sides, each related to its own number.
#[verifier::opaque]
pub open spec fn in_order(n: nat, m: nat, rel: spec_fn(int, int) -> bool) -> bool {
    n == m && forall|i: int| 0 <= i < n ==> #[trigger] rel(i, i)
}

/// Element `i` of `x` equals element `j` of `y`.
pub open spec fn equal_items(x: Seq<Val>, y: Seq<Val>) -> spec_fn(int, int) -> bool
    decreases x, 0nat,
{
    |i: int, j: int| 0 <= i < x.len() && 0 <= j < y.len() && same(x[i], y[j])
}

/// Entry `i` of `x` equals entry `j` of `y`, key and value.
pub open spec fn equal_entries(x: Seq<(Val, Val)>, y: Seq<(Val, Val)>) -> spec_fn(int, int) -> bool
    decreases x, 0nat,
{
    |i: int, j: int|
        0 <= i < x.len() && 0 <= j < y.len() && same(x[i].0, y[j].0) && same(x[i].1, y[j].1)
}

/// Two values are equal. Doubles compare as numbers. Lists and vectors compare element by
/// element, with each other too. Sets and maps compare by what they hold, in any order.
pub open spec fn same(a: Val, b: Val) -> bool
    decreases a, 1nat,
{
    match (a, b) {
        (Val::Double(x), Val::Double(y)) => doubles_equal(x, y),
        (Val::List(x), Val::List(y)) => in_order(x.len(), y.len(), equal_items(x, y)),
        (Val::List(x), Val::Vector(y)) => in_order(x.len(), y.len(), equal_items(x, y)),
        (Val::Vector(x), Val::List(y)) => in_order(x.len(), y.len(), equal_items(x, y)),
        (Val::Vector(x), Val::Vector(y)) => in_order(x.len(), y.len(), equal_items(x, y)),
        (Val::ObjectArray(x), Val::ObjectArray(y)) => in_order(
            x.len(),
            y.len(),
            equal_items(x, y),
        ),
        (Val::HashSet(x), Val::HashSet(y)) => in_any_order(x.len(), y.len(), equal_items(x, y)),
        (Val::HashMap(x), Val::HashMap(y)) => in_any_order(x.len(), y.len(), equal_entries(x, y)),
        _ => a == b,
    }
}

/// The elements of a list or a vector: the two compare with each other.
pub open spec fn sequential(v: Val) -> Option<Seq<Val>> {
    match v {
        Val::List(items) => Some(items),
        Val::Vector(items) => Some(items),
        _ => None,
    }
}

proof fn lemma_turn(n: nat, m: nat, r: spec_fn(int, int) -> bool, t: spec_fn(int, int) -> bool)
    requires
        forall|i: int, j: int| #[trigger] r(i, j) ==> t(j, i),
    ensures
        in_order(n, m, r) ==> in_order(m, n, t),
        in_any_order(n, m, r) ==> in_any_order(m, n, t),
{
    if in_order(n, m, r) {
        reveal(in_order);
        assert forall|i: int| 0 <= i < m implies #[trigger] t(i, i) by {
            assert(r(i, i));
        }
    }
    if in_any_order(n, m, r) {
        reveal(in_any_order);
        assert forall|j: int| 0 <= j < m implies #[trigger] has_right(t, n, j) by {
            assert(has_left(r, n, j));
            let i = choose|i: int| 0 <= i < n && #[trigger] r(i, j);
            assert(t(j, i));
        }
        assert forall|i: int| 0 <= i < n implies #[trigger] has_left(t, m, i) by {
            assert(has_right(r, m, i));
            let j = choose|j: int| 0 <= j < m && #[trigger] r(i, j);
            assert(t(j, i));
        }
    }
}

proof fn lemma_chain(
    n: nat,
    m: nat,
    l: nat,
    r: spec_fn(int, int) -> bool,
    s: spec_fn(int, int) -> bool,
    t: spec_fn(int, int) -> bool,
)
    requires
        forall|i: int, j: int, k: int| #[trigger] r(i, j) && #[trigger] s(j, k) ==> t(i, k),
    ensures
        in_order(n, m, r) && in_order(m, l, s) ==> in_order(n, l, t),
        in_any_order(n, m, r) && in_any_order(m, l, s) ==> in_any_order(n, l, t),
{
    if in_order(n, m, r) && in_order(m, l, s) {
        reveal(in_order);
        assert forall|i: int| 0 <= i < n implies #[trigger] t(i, i) by {
            assert(r(i, i) && s(i, i));
        }
    }
    if in_any_order(n, m, r) && in_any_order(m, l, s) {
        reveal(in_any_order);
        assert forall|i: int| 0 <= i < n implies #[trigger] has_right(t, l, i) by {
            assert(has_right(r, m, i));
            let j = choose|j: int| 0 <= j < m && #[trigger] r(i, j);
            assert(has_right(s, l, j));
            let k = choose|k: int| 0 <= k < l && #[trigger] s(j, k);
            assert(t(i, k));
        }
        assert forall|k: int| 0 <= k < l implies #[trigger] has_left(t, n, k) by {
            assert(has_left(s, m, k));
            let j = choose|j: int| 0 <= j < m && #[trigger] s(j, k);
            assert(has_left(r, n, j));
            let i = choose|i: int| 0 <= i < n && #[trigger] r(i, j);
            assert(t(i, k));
        }
    }
}

proof fn lemma_diagonal(n: nat, r: spec_fn(int, int) -> bool)
    requires
        forall|i: int| 0 <= i < n ==> #[trigger] r(i, i),
    ensures
        in_order(n, n, r),
        in_any_order(n, n, r),
{
    reveal(in_order);
    reveal(in_any_order);
    assert forall|i: int| 0 <= i < n implies #[trigger] has_right(r, n, i) by {
        assert(r(i, i));
    }
    assert forall|i: int| 0 <= i < n implies #[trigger] has_left(r, n, i) by {
        assert(r(i, i));
    }
}

proof fn lemma_items_symmetric(x: Seq<Val>, y: Seq<Val>)
    ensures
        forall|i: int, j: int| #[trigger] equal_items(x, y)(i, j) ==> equal_items(y, x)(j, i),
    decreases x, 0nat,
{
    assert forall|i: int, j: int| #[trigger] equal_items(x, y)(i, j) implies equal_items(y, x)(
        j,
        i,
    ) by {
        law_same_symmetric(x[i], y[j]);
    }
}

proof fn lemma_entries_symmetric(x: Seq<(Val, Val)>, y: Seq<(Val, Val)>)
    ensures
        forall|i: int, j: int| #[trigger] equal_entries(x, y)(i, j) ==> equal_entries(y, x)(j, i),
    decreases x, 0nat,
{
    assert forall|i: int, j: int| #[trigger] equal_entries(x, y)(i, j) implies equal_entries(y, x)(
        j,
        i,
    ) by {
        law_same_symmetric(x[i].0, y[j].0);
        law_same_symmetric(x[i].1, y[j].1);
    }
}

/// Equality is symmetric.
pub proof fn law_same_symmetric(a: Val, b: Val)
    requires
        same(a, b),
    ensures
        same(b, a),
    decreases a, 1nat,
{
    match (a, b) {
        (Val::HashSet(x), Val::HashSet(y)) => {
            lemma_items_symmetric(x, y);
            lemma_turn(x.len(), y.len(), equal_items(x, y), equal_items(y, x));
        },
        (Val::HashMap(x), Val::HashMap(y)) => {
            lemma_entries_symmetric(x, y);
            lemma_turn(x.len(), y.len(), equal_entries(x, y), equal_entries(y, x));
        },
        (Val::ObjectArray(x), Val::ObjectArray(y)) => {
            lemma_items_symmetric(x, y);
            lemma_turn(x.len(), y.len(), equal_items(x, y), equal_items(y, x));
        },
        _ => {
            if sequential(a) is Some && sequential(b) is Some {
                let x = sequential(a)->0;
                let y = sequential(b)->0;
                lemma_items_symmetric(x, y);
                lemma_turn(x.len(), y.len(), equal_items(x, y), equal_items(y, x));
            }
        },
    }
}

proof fn lemma_items_transitive(x: Seq<Val>, y: Seq<Val>, z: Seq<Val>)
    ensures
        forall|i: int, j: int, k: int| #[trigger]
            equal_items(x, y)(i, j) && #[trigger] equal_items(y, z)(j, k) ==> equal_items(x, z)(
                i,
                k,
            ),
    decreases x, 0nat,
{
    assert forall|i: int, j: int, k: int| #[trigger]
        equal_items(x, y)(i, j) && #[trigger] equal_items(y, z)(j, k) implies equal_items(x, z)(
        i,
        k,
    ) by {
        law_same_transitive(x[i], y[j], z[k]);
    }
}

proof fn lemma_entries_transitive(x: Seq<(Val, Val)>, y: Seq<(Val, Val)>, z: Seq<(Val, Val)>)
    ensures
        forall|i: int, j: int, k: int| #[trigger]
            equal_entries(x, y)(i, j) && #[trigger] equal_entries(y, z)(j, k) ==> equal_entries(
                x,
                z,
            )(i, k),
    decreases x, 0nat,
{
    assert forall|i: int, j: int, k: int| #[trigger]
        equal_entries(x, y)(i, j) && #[trigger] equal_entries(y, z)(j, k) implies equal_entries(
        x,
        z,
    )(i, k) by {
        law_same_transitive(x[i].0, y[j].0, z[k].0);
        law_same_transitive(x[i].1, y[j].1, z[k].1);
    }
}

/// Equality is transitive.
pub proof fn law_same_transitive(a: Val, b: Val, c: Val)
    requires
        same(a, b),
        same(b, c),
    ensures
        same(a, c),
    decreases a, 1nat,
{
    match (a, b, c) {
        (Val::HashSet(x), Val::HashSet(y), Val::HashSet(z)) => {
            lemma_items_transitive(x, y, z);
            lemma_chain(
                x.len(),
                y.len(),
                z.len(),
                equal_items(x, y),
                equal_items(y, z),
                equal_items(x, z),
            );
        },
        (Val::HashMap(x), Val::HashMap(y), Val::HashMap(z)) => {
            lemma_entries_transitive(x, y, z);
            lemma_chain(
                x.len(),
                y.len(),
                z.len(),
                equal_entries(x, y),
                equal_entries(y, z),
                equal_entries(x, z),
            );
        },
        (Val::ObjectArray(x), Val::ObjectArray(y), Val::ObjectArray(z)) => {
            lemma_items_transitive(x, y, z);
            lemma_chain(
                x.len(),
                y.len(),
                z.len(),
                equal_items(x, y),
                equal_items(y, z),
                equal_items(x, z),
            );
        },
        _ => {
            if sequential(a) is Some && sequential(b) is Some && sequential(c) is Some {
                let x = sequential(a)->0;
                let y = sequential(b)->0;
                let z = sequential(c)->0;
                lemma_items_transitive(x, y, z);
                lemma_chain(
                    x.len(),
                    y.len(),
                    z.len(),
                    equal_items(x, y),
                    equal_items(y, z),
                    equal_items(x, z),
                );
            }
        },
    }
}

/// No double within the value is a NaN.
pub open spec fn nan_free(v: Val) -> bool
    decreases v,
{
    match v {
        Val::Double(d) => !double_is_nan(d),
        Val::List(x) => forall|i: int| 0 <= i < x.len() ==> nan_free(#[trigger] x[i]),
        Val::Vector(x) => forall|i: int| 0 <= i < x.len() ==> nan_free(#[trigger] x[i]),
        Val::ObjectArray(x) => forall|i: int| 0 <= i < x.len() ==> nan_free(#[trigger] x[i]),
        Val::HashSet(x) => forall|i: int| 0 <= i < x.len() ==> nan_free(#[trigger] x[i]),
        Val::HashMap(x) => forall|i: int|
            #![trigger x[i]]
            0 <= i < x.len() ==> nan_free(x[i].0) && nan_free(x[i].1),
        _ => true,
    }
}

proof fn lemma_items_reflexive(x: Seq<Val>)
    requires
        forall|i: int| 0 <= i < x.len() ==> nan_free(#[trigger] x[i]),
    ensures
        in_order(x.len(), x.len(), equal_items(x, x)),
        in_any_order(x.len(), x.len(), equal_items(x, x)),
    decreases x, 0nat,
{
    assert forall|i: int| 0 <= i < x.len() implies #[trigger] equal_items(x, x)(i, i) by {
        law_same_reflexive(x[i]);
    }
    lemma_diagonal(x.len(), equal_items(x, x));
}

/// A value without a NaN equals itself.
pub proof fn law_same_reflexive(v: Val)
    requires
        nan_free(v),
    ensures
        same(v, v),
    decreases v, 1nat,
{
    match v {
        Val::HashMap(x) => {
            assert forall|i: int| 0 <= i < x.len() implies #[trigger] equal_entries(x, x)(
                i,
                i,
            ) by {
                law_same_reflexive(x[i].0);
                law_same_reflexive(x[i].1);
            }
            lemma_diagonal(x.len(), equal_entries(x, x));
        },
        Val::HashSet(x) => lemma_items_reflexive(x),
        Val::ObjectArray(x) => lemma_items_reflexive(x),
        Val::List(x) => lemma_items_reflexive(x),
        Val::Vector(x) => lemma_items_reflexive(x),
        _ => {},
    }
}

fn same_longs(a: &Vec<i64>, b: &Vec<i64>) -> (r: bool)
    ensures
        r == (a@ == b@),
{
    if a.len() != b.len() {
        return false;
    }
    for i in 0..a.len()
        invariant
            a@.len() == b@.len(),
            forall|j: int| 0 <= j < i ==> a@[j] == b@[j],
    {
        if a[i] != b[i] {
            return false;
        }
    }
    assert(a@ =~= b@);
    true
}

fn same_bits(a: &Vec<u64>, b: &Vec<u64>) -> (r: bool)
    ensures
        r == (a@ == b@),
{
    if a.len() != b.len() {
        return false;
    }
    for i in 0..a.len()
        invariant
            a@.len() == b@.len(),
            forall|j: int| 0 <= j < i ==> a@[j] == b@[j],
    {
        if a[i] != b[i] {
            return false;
        }
    }
    assert(a@ =~= b@);
    true
}

fn equal_in_order(x: &Vec<Value>, y: &Vec<Value>) -> (r: bool)
    ensures
        r == in_order(
            vals(x@).len(),
            vals(y@).len(),
            equal_items(vals(x@), vals(y@)),
        ),
    decreases x, 0nat,
{
    let ghost rel = equal_items(vals(x@), vals(y@));
    proof {
        reveal(in_order);
    }
    if x.len() != y.len() {
        return false;
    }
    let mut i: usize = 0;
    while i < x.len()
        invariant
            i <= x.len(),
            x.len() == y.len(),
            rel == equal_items(vals(x@), vals(y@)),
            forall|k: int| 0 <= k < i ==> #[trigger] rel(k, k),
        decreases x.len() - i,
    {
        assert(decreases_to!(x => x@[i as int]));
        let e = equal(&x[i], &y[i]);
        assert(rel(i as int, i as int) == e);
        if !e {
            reveal(in_order);
            return false;
        }
        i = i + 1;
    }
    true
}

fn is_member(v: &Value, y: &Vec<Value>) -> (r: bool)
    ensures
        r == exists|j: int| 0 <= j < y@.len() && same(v.view(), #[trigger] vals(y@)[j]),
    decreases v, 2nat,
{
    let mut j: usize = 0;
    while j < y.len()
        invariant
            j <= y.len(),
            forall|k: int| 0 <= k < j ==> !same(v.view(), #[trigger] vals(y@)[k]),
        decreases y.len() - j,
    {
        if equal(v, &y[j]) {
            assert(same(v.view(), vals(y@)[j as int]));
            return true;
        }
        j = j + 1;
    }
    false
}

fn holds_member(x: &Vec<Value>, w: &Value) -> (r: bool)
    ensures
        r == exists|i: int| 0 <= i < x@.len() && same(#[trigger] vals(x@)[i], w.view()),
    decreases x, 0nat,
{
    let mut i: usize = 0;
    while i < x.len()
        invariant
            i <= x.len(),
            forall|k: int| 0 <= k < i ==> !same(#[trigger] vals(x@)[k], w.view()),
        decreases x.len() - i,
    {
        assert(decreases_to!(x => x@[i as int]));
        if equal(&x[i], w) {
            assert(same(vals(x@)[i as int], w.view()));
            return true;
        }
        i = i + 1;
    }
    false
}

fn equal_sets(x: &Vec<Value>, y: &Vec<Value>) -> (r: bool)
    ensures
        r == in_any_order(
            vals(x@).len(),
            vals(y@).len(),
            equal_items(vals(x@), vals(y@)),
        ),
    decreases x, 1nat,
{
    let ghost rel = equal_items(vals(x@), vals(y@));
    let ghost n = x@.len();
    let ghost m = y@.len();
    proof {
        reveal(in_any_order);
    }
    if x.len() != y.len() {
        return false;
    }
    let mut i: usize = 0;
    while i < x.len()
        invariant
            i <= x.len(),
            m == y@.len(),
            rel == equal_items(vals(x@), vals(y@)),
            forall|k: int| 0 <= k < i ==> #[trigger] has_right(rel, m, k),
            in_any_order(vals(x@).len(), vals(y@).len(), rel) ==> forall|k: int|
                0 <= k < x@.len() ==> #[trigger] has_right(rel, m, k),
        decreases x.len() - i,
    {
        assert(decreases_to!(x => x@[i as int]));
        let e = is_member(&x[i], y);
        proof {
            assert(has_right(rel, m, i as int) == e) by {
                if e {
                    let j = choose|j: int|
                        0 <= j < y@.len() && same(x@[i as int].view(), #[trigger] vals(y@)[j]);
                    assert(rel(i as int, j));
                }
                if has_right(rel, m, i as int) {
                    let j = choose|j: int| 0 <= j < m && #[trigger] rel(i as int, j);
                    assert(same(x@[i as int].view(), vals(y@)[j]));
                }
            }
        }
        if !e {
            return false;
        }
        i = i + 1;
    }
    let mut j: usize = 0;
    while j < y.len()
        invariant
            j <= y.len(),
            n == x@.len(),
            rel == equal_items(vals(x@), vals(y@)),
            forall|k: int| 0 <= k < j ==> #[trigger] has_left(rel, n, k),
            in_any_order(vals(x@).len(), vals(y@).len(), rel) ==> forall|k: int|
                0 <= k < y@.len() ==> #[trigger] has_left(rel, n, k),
        decreases y.len() - j,
    {
        let e = holds_member(x, &y[j]);
        proof {
            assert(has_left(rel, n, j as int) == e) by {
                if e {
                    let i = choose|i: int|
                        0 <= i < x@.len() && same(#[trigger] vals(x@)[i], y@[j as int].view());
                    assert(rel(i, j as int));
                }
                if has_left(rel, n, j as int) {
                    let i = choose|i: int| 0 <= i < n && #[trigger] rel(i, j as int);
                    assert(same(vals(x@)[i], y@[j as int].view()));
                }
            }
        }
        if !e {
            return false;
        }
        j = j + 1;
    }
    true
}

fn is_entry(p: &(Value, Value), y: &Vec<(Value, Value)>) -> (r: bool)
    ensures
        r == exists|j: int|
            0 <= j < y@.len() && same(p.0.view(), (#[trigger] pair_vals(y@)[j]).0) && same(
                p.1.view(),
                pair_vals(y@)[j].1,
            ),
    decreases p, 0nat,
{
    let mut j: usize = 0;
    while j < y.len()
        invariant
            j <= y.len(),
            forall|k: int|
                0 <= k < j ==> !(same(p.0.view(), (#[trigger] pair_vals(y@)[k]).0) && same(
                    p.1.view(),
                    pair_vals(y@)[k].1,
                )),
        decreases y.len() - j,
    {
        assert(decreases_to!(p => p.0));
        assert(decreases_to!(p => p.1));
        if equal(&p.0, &y[j].0) && equal(&p.1, &y[j].1) {
            assert(same(p.0.view(), pair_vals(y@)[j as int].0));
            return true;
        }
        j = j + 1;
    }
    false
}

fn holds_entry(x: &Vec<(Value, Value)>, q: &(Value, Value)) -> (r: bool)
    ensures
        r == exists|i: int|
            0 <= i < x@.len() && same((#[trigger] pair_vals(x@)[i]).0, q.0.view()) && same(
                pair_vals(x@)[i].1,
                q.1.view(),
            ),
    decreases x, 0nat,
{
    let mut i: usize = 0;
    while i < x.len()
        invariant
            i <= x.len(),
            forall|k: int|
                0 <= k < i ==> !(same((#[trigger] pair_vals(x@)[k]).0, q.0.view()) && same(
                    pair_vals(x@)[k].1,
                    q.1.view(),
                )),
        decreases x.len() - i,
    {
        assert(decreases_to!(x => x@[i as int].0));
        assert(decreases_to!(x => x@[i as int].1));
        if equal(&x[i].0, &q.0) && equal(&x[i].1, &q.1) {
            assert(same(pair_vals(x@)[i as int].0, q.0.view()));
            return true;
        }
        i = i + 1;
    }
    false
}

fn equal_maps(x: &Vec<(Value, Value)>, y: &Vec<(Value, Value)>) -> (r: bool)
    ensures
        r == in_any_order(
            pair_vals(x@).len(),
            pair_vals(y@).len(),
            equal_entries(pair_vals(x@), pair_vals(y@)),
        ),
    decreases x, 1nat,
{
    let ghost rel = equal_entries(pair_vals(x@), pair_vals(y@));
    let ghost n = x@.len();
    let ghost m = y@.len();
    proof {
        reveal(in_any_order);
    }
    if x.len() != y.len() {
        return false;
    }
    let mut i: usize = 0;
    while i < x.len()
        invariant
            i <= x.len(),
            m == y@.len(),
            rel == equal_entries(pair_vals(x@), pair_vals(y@)),
            forall|k: int| 0 <= k < i ==> #[trigger] has_right(rel, m, k),
            in_any_order(pair_vals(x@).len(), pair_vals(y@).len(), rel) ==> forall|k: int|
                0 <= k < x@.len() ==> #[trigger] has_right(rel, m, k),
        decreases x.len() - i,
    {
        assert(decreases_to!(x => x@[i as int]));
        let e = is_entry(&x[i], y);
        proof {
            assert(has_right(rel, m, i as int) == e) by {
                if e {
                    let j = choose|j: int|
                        0 <= j < y@.len() && same(
                            x@[i as int].0.view(),
                            (#[trigger] pair_vals(y@)[j]).0,
                        ) && same(x@[i as int].1.view(), pair_vals(y@)[j].1);
                    assert(rel(i as int, j));
                }
                if has_right(rel, m, i as int) {
                    let j = choose|j: int| 0 <= j < m && #[trigger] rel(i as int, j);
                    assert(same(x@[i as int].0.view(), pair_vals(y@)[j].0));
                }
            }
        }
        if !e {
            return false;
        }
        i = i + 1;
    }
    let mut j: usize = 0;
    while j < y.len()
        invariant
            j <= y.len(),
            n == x@.len(),
            rel == equal_entries(pair_vals(x@), pair_vals(y@)),
            forall|k: int| 0 <= k < j ==> #[trigger] has_left(rel, n, k),
            in_any_order(pair_vals(x@).len(), pair_vals(y@).len(), rel) ==> forall|k: int|
                0 <= k < y@.len() ==> #[trigger] has_left(rel, n, k),
        decreases y.len() - j,
    {
        let e = holds_entry(x, &y[j]);
        proof {
            assert(has_left(rel, n, j as int) == e) by {
                if e {
                    let i = choose|i: int|
                        0 <= i < x@.len() && same(
                            (#[trigger] pair_vals(x@)[i]).0,
                            y@[j as int].0.view(),
                        ) && same(pair_vals(x@)[i].1, y@[j as int].1.view());
                    assert(rel(i, j as int));
                }
                if has_left(rel, n, j as int) {
                    let i = choose|i: int| 0 <= i < n && #[trigger] rel(i, j as int);
                    assert(same(pair_vals(x@)[i].0, y@[j as int].0.view()));
                }
            }
        }
        if !e {
            return false;
        }
        j = j + 1;
    }
    true
}

/// Whether two values are equal.
pub fn equal(a: &Value, b: &Value) -> (r: bool)
    ensures
        r == same(a.view(), b.view()),
    decreases a, 1nat,
{
    proof {
        lemma_views(*a);
        lemma_views(*b);
    }
    match (a, b) {
        (Value::Nil, Value::Nil) => true,
        (Value::Bool(x), Value::Bool(y)) => *x == *y,
        (Value::Long(x), Value::Long(y)) => *x == *y,
        (Value::Double(x), Value::Double(y)) => same_double(*x, *y),
        (Value::BigInt(x), Value::BigInt(y)) => same_text(x.as_str(), y.as_str()),
        (Value::BigDecimal(x), Value::BigDecimal(y)) => same_text(x.as_str(), y.as_str()),
        (Value::Ratio(x), Value::Ratio(y)) => same_text(x.as_str(), y.as_str()),
        (Value::Char(x), Value::Char(y)) => *x == *y,
        (Value::Str(x), Value::Str(y)) => same_text(x.as_str(), y.as_str()),
        (Value::Keyword(x), Value::Keyword(y)) => same_name(x, y),
        (Value::Symbol(x), Value::Symbol(y)) => same_name(x, y),
        (Value::Instant(x), Value::Instant(y)) => *x == *y,
        (Value::Uuid(x), Value::Uuid(y)) => *x == *y,
        (Value::Pattern(x), Value::Pattern(y)) => same_text(x.as_str(), y.as_str()),
        (Value::List(x), Value::List(y)) => equal_in_order(x, y),
        (Value::List(x), Value::Vector(y)) => equal_in_order(x, y),
        (Value::Vector(x), Value::List(y)) => equal_in_order(x, y),
        (Value::Vector(x), Value::Vector(y)) => equal_in_order(x, y),
        (Value::ObjectArray(x), Value::ObjectArray(y)) => equal_in_order(x, y),
        (Value::HashSet(x), Value::HashSet(y)) => equal_sets(x, y),
        (Value::HashMap(x), Value::HashMap(y)) => equal_maps(x, y),
        (Value::ByteArray(x), Value::ByteArray(y)) => same_bytes(x, y),
        (Value::LongArray(x), Value::LongArray(y)) => same_longs(x, y),
        (Value::DoubleArray(x), Value::DoubleArray(y)) => same_bits(x, y),
        (Value::NativeObject(x), Value::NativeObject(y)) => *x == *y,
        (Value::Resource(x), Value::Resource(y)) => *x == *y,
        _ => false,
    }
}

impl PartialEq for Value {
    fn eq(&self, other: &Self) -> (r: bool) {
        equal(self, other)
    }
}

impl vstd::std_specs::cmp::PartialEqSpecImpl for Value {
    open spec fn obeys_eq_spec() -> bool {
        true
    }

    open spec fn eq_spec(&self, other: &Self) -> bool {
        same(self.view(), other.view())
    }
}

// ---------------------------------------------------------------------------
// Hashing
// ---------------------------------------------------------------------------

/// The number by which a value is found again: equal values share it.
pub open spec fn bucket(v: Val) -> u64 {
    match v {
        Val::Nil => 1,
        Val::Bool(b) => if b { 2 } else { 3 },
        Val::Long(n) => n as u64,
        Val::Double(d) => if d % 0x8000_0000_0000_0000 == 0 { 4 } else { d },
        Val::BigInt(s) => fnv1a(s),
        Val::BigDecimal(s) => fnv1a(s),
        Val::Ratio(s) => fnv1a(s),
        Val::Char(c) => c as u64,
        Val::Str(s) => fnv1a(s),
        Val::Keyword(n) => fnv1a(n.name),
        Val::Symbol(n) => fnv1a(n.name),
        Val::Instant(n) => n as u64,
        Val::Uuid(n) => n as u64,
        Val::Pattern(s) => fnv1a(s),
        Val::List(x) => x.len() as u64,
        Val::Vector(x) => x.len() as u64,
        Val::HashMap(x) => x.len() as u64,
        Val::HashSet(x) => x.len() as u64,
        Val::ByteArray(x) => x.len() as u64,
        Val::LongArray(x) => x.len() as u64,
        Val::DoubleArray(x) => x.len() as u64,
        Val::ObjectArray(x) => x.len() as u64,
        Val::NativeObject(h) => h,
        Val::Resource(h) => h,
    }
}

/// Equal values share their bucket.
pub proof fn law_equal_values_share_a_bucket(a: Val, b: Val)
    requires
        same(a, b),
    ensures
        bucket(a) == bucket(b),
{
    reveal(in_order);
    reveal(in_any_order);
}

/// The bucket of a value.
pub fn bucket_of(v: &Value) -> (r: u64)
    ensures
        r == bucket(v.view()),
{
    match v {
        Value::Nil => 1,
        Value::Bool(b) => if *b {
            2
        } else {
            3
        },
        Value::Long(n) => *n as u64,
        Value::Double(d) => if *d % 0x8000_0000_0000_0000 == 0 {
            4
        } else {
            *d
        },
        Value::BigInt(s) => fnv1a_64(s.as_str()),
        Value::BigDecimal(s) => fnv1a_64(s.as_str()),
        Value::Ratio(s) => fnv1a_64(s.as_str()),
        Value::Char(c) => *c as u64,
        Value::Str(s) => fnv1a_64(s.as_str()),
        Value::Keyword(n) => fnv1a_64(n.name.as_str()),
        Value::Symbol(n) => fnv1a_64(n.name.as_str()),
        Value::Instant(n) => *n as u64,
        Value::Uuid(n) => *n as u64,
        Value::Pattern(s) => fnv1a_64(s.as_str()),
        Value::List(x) => x.len() as u64,
        Value::Vector(x) => x.len() as u64,
        Value::HashMap(x) => x.len() as u64,
        Value::HashSet(x) => x.len() as u64,
        Value::ByteArray(x) => x.len() as u64,
        Value::LongArray(x) => x.len() as u64,
        Value::DoubleArray(x) => x.len() as u64,
        Value::ObjectArray(x) => x.len() as u64,
        Value::NativeObject(h) => *h,
        Value::Resource(h) => *h,
    }
}

impl Eq for Value {

}

/// `Hasher::write_u64` feeds one number to a hasher. What the hasher makes of it is its own.
#[verifier::external_body]
fn feed<H: std::hash::Hasher>(state: &mut H, n: u64) {
    state.write_u64(n);
}

impl std::hash::Hash for Value {
    fn hash<H: std::hash::Hasher>(&self, state: &mut H) {
        feed(state, bucket_of(self));
    }
}

// ---------------------------------------------------------------------------
// Names of types, errors
// ---------------------------------------------------------------------------

/// The name of a value's type, as messages give it.
pub open spec fn kind_of(v: Val) -> Seq<char> {
    match v {
        Val::Nil => "nil"@,
        Val::Bool(_) => "boolean"@,
        Val::Long(_) => "long"@,
        Val::Double(_) => "double"@,
        Val::BigInt(_) => "bigint"@,
        Val::BigDecimal(_) => "bigdecimal"@,
        Val::Ratio(_) => "ratio"@,
        Val::Char(_) => "char"@,
        Val::Str(_) => "string"@,
        Val::Keyword(_) => "keyword"@,
        Val::Symbol(_) => "symbol"@,
        Val::Instant(_) => "instant"@,
        Val::Uuid(_) => "uuid"@,
        Val::Pattern(_) => "pattern"@,
        Val::List(_) => "list"@,
        Val::Vector(_) => "vector"@,
        Val::HashMap(_) => "map"@,
        Val::HashSet(_) => "set"@,
        Val::ByteArray(_) => "byte-array"@,
        Val::LongArray(_) => "long-array"@,
        Val::DoubleArray(_) => "double-array"@,
        Val::ObjectArray(_) => "object-array"@,
        Val::NativeObject(_) => "native-object"@,
        Val::Resource(_) => "resource"@,
    }
}

impl Value {
    /// The name of the value's type.
    pub fn kind(&self) -> (r: &'static str)
        ensures
            r@ == kind_of(self.view()),
    {
        match self {
            Value::Nil => "nil",
            Value::Bool(_) => "boolean",
            Value::Long(_) => "long",
            Value::Double(_) => "double",
            Value::BigInt(_) => "bigint",
            Value::BigDecimal(_) => "bigdecimal",
            Value::Ratio(_) => "ratio",
            Value::Char(_) => "char",
            Value::Str(_) => "string",
            Value::Keyword(_) => "keyword",
            Value::Symbol(_) => "symbol",
            Value::Instant(_) => "instant",
            Value::Uuid(_) => "uuid",
            Value::Pattern(_) => "pattern",
            Value::List(_) => "list",
            Value::Vector(_) => "vector",
            Value::HashMap(_) => "map",
            Value::HashSet(_) => "set",
            Value::ByteArray(_) => "byte-array",
            Value::LongArray(_) => "long-array",
            Value::DoubleArray(_) => "double-array",
            Value::ObjectArray(_) => "object-array",
            Value::NativeObject(_) => "native-object",
            Value::Resource(_) => "resource",
        }
    }
}

/// Why an operation on values failed.
#[derive(Debug)]
pub enum ValueError {
    WrongType { expected: String, got: String },
    ArityError { name: String, expected: String, got: usize },
    OutOfRange,
    TransientAlreadyPersisted,
    /// A request to leave the process with this code.
    Exit(i32),
    Other(String),
}

/// What a [`ValueError`] holds.
pub enum Failure {
    WrongType { expected: Seq<char>, got: Seq<char> },
    ArityError { name: Seq<char>, expected: Seq<char>, got: nat },
    OutOfRange,
    TransientAlreadyPersisted,
    Exit(i32),
    Other(Seq<char>),
}

impl ValueError {
    /// What the error holds.
    pub open spec fn view(&self) -> Failure {
        match self {
            ValueError::WrongType { expected, got } => Failure::WrongType {
                expected: expected@,
                got: got@,
            },
            ValueError::ArityError { name, expected, got } => Failure::ArityError {
                name: name@,
                expected: expected@,
                got: *got as nat,
            },
            ValueError::OutOfRange => Failure::OutOfRange,
            ValueError::TransientAlreadyPersisted => Failure::TransientAlreadyPersisted,
            ValueError::Exit(code) => Failure::Exit(*code),
            ValueError::Other(s) => Failure::Other(s@),
        }
    }

    /// The error with this message.
    pub fn other(message: &str) -> (r: ValueError)
        ensures
            r.view() == Failure::Other(message@),
    {
        ValueError::Other(text_copy(message))
    }

    /// A value of another type than expected.
    pub fn wrong_type(expected: &str, got: &Value) -> (r: ValueError)
        ensures
            r.view() == (Failure::WrongType {
                expected: expected@,
                got: kind_of(got.view()),
            }),
    {
        ValueError::WrongType { expected: text_copy(expected), got: text_copy(got.kind()) }
    }
}

pub type ValueResult<T> = Result<T, ValueError>;

} // verus!
