//! Laws of equality between values.

use vstd::prelude::*;
use crate::value::{
    equal_entries, equal_items, has_left, has_right, in_any_order, in_order, same, Val,
};

verus! {

/// The items are equal one by one, and there are as many.
pub open spec fn equal_in_turn(x: Seq<Val>, y: Seq<Val>) -> bool {
    x.len() == y.len() && forall|i: int| 0 <= i < x.len() ==> same(#[trigger] x[i], y[i])
}

proof fn lemma_in_turn(x: Seq<Val>, y: Seq<Val>)
    ensures
        in_order(x.len(), y.len(), equal_items(x, y)) <==> equal_in_turn(x, y),
{
    reveal(in_order);
    let rel = equal_items(x, y);
    if in_order(x.len(), y.len(), rel) {
        assert forall|i: int| 0 <= i < x.len() implies same(#[trigger] x[i], y[i]) by {
            assert(rel(i, i));
        }
    }
    if equal_in_turn(x, y) {
        assert forall|i: int| 0 <= i < x.len() implies #[trigger] rel(i, i) by {
            assert(same(x[i], y[i]));
        }
    }
}

/// Lists and vectors are equal to each other and among themselves where their items are, in turn.
pub proof fn law_equal_sequences(x: Seq<Val>, y: Seq<Val>)
    ensures
        same(Val::List(x), Val::List(y)) <==> equal_in_turn(x, y),
        same(Val::List(x), Val::Vector(y)) <==> equal_in_turn(x, y),
        same(Val::Vector(x), Val::List(y)) <==> equal_in_turn(x, y),
        same(Val::Vector(x), Val::Vector(y)) <==> equal_in_turn(x, y),
        same(Val::ObjectArray(x), Val::ObjectArray(y)) <==> equal_in_turn(x, y),
{
    lemma_in_turn(x, y);
}

/// The value equals one of the items.
pub open spec fn equals_one_of(v: Val, y: Seq<Val>) -> bool {
    exists|j: int| 0 <= j < y.len() && same(v, #[trigger] y[j])
}

/// One of the items equals the value.
pub open spec fn one_equals(x: Seq<Val>, v: Val) -> bool {
    exists|i: int| 0 <= i < x.len() && same(#[trigger] x[i], v)
}

/// Sets are equal where they are of one size and each item of one equals an item of the other.
pub proof fn law_equal_sets(x: Seq<Val>, y: Seq<Val>)
    ensures
        same(Val::HashSet(x), Val::HashSet(y)) <==> {
            &&& x.len() == y.len()
            &&& forall|i: int| 0 <= i < x.len() ==> #[trigger] equals_one_of(x[i], y)
            &&& forall|j: int| 0 <= j < y.len() ==> #[trigger] one_equals(x, y[j])
        },
{
    reveal(in_any_order);
    let rel = equal_items(x, y);
    let n = x.len();
    let m = y.len();
    assert forall|i: int| 0 <= i < n implies #[trigger] has_right(rel, m, i) == equals_one_of(
        x[i],
        y,
    ) by {
        if has_right(rel, m, i) {
            let j = choose|j: int| 0 <= j < m && #[trigger] rel(i, j);
            assert(same(x[i], y[j]));
        }
        if equals_one_of(x[i], y) {
            let v = x[i];
            let j = choose|j: int| 0 <= j < y.len() && same(v, #[trigger] y[j]);
            assert(rel(i, j));
        }
    }
    assert forall|j: int| 0 <= j < m implies #[trigger] has_left(rel, n, j) == one_equals(
        x,
        y[j],
    ) by {
        if has_left(rel, n, j) {
            let i = choose|i: int| 0 <= i < n && #[trigger] rel(i, j);
            assert(same(x[i], y[j]));
        }
        if one_equals(x, y[j]) {
            let v = y[j];
            let i = choose|i: int| 0 <= i < x.len() && same(#[trigger] x[i], v);
            assert(rel(i, j));
        }
    }
    if same(Val::HashSet(x), Val::HashSet(y)) {
        assert forall|i: int| 0 <= i < n implies #[trigger] equals_one_of(x[i], y) by {
            assert(has_right(rel, m, i));
        }
        assert forall|j: int| 0 <= j < m implies #[trigger] one_equals(x, y[j]) by {
            assert(has_left(rel, n, j));
        }
    }
    if x.len() == y.len() && (forall|i: int|
        0 <= i < x.len() ==> #[trigger] equals_one_of(x[i], y)) && (forall|j: int|
        0 <= j < y.len() ==> #[trigger] one_equals(x, y[j])) {
        assert forall|i: int| 0 <= i < n implies #[trigger] has_right(rel, m, i) by {
            assert(equals_one_of(x[i], y));
        }
        assert forall|j: int| 0 <= j < m implies #[trigger] has_left(rel, n, j) by {
            assert(one_equals(x, y[j]));
        }
    }
}

/// Values of different types are different, but for lists and vectors; a double is equal to another
/// as a number, so not where one is no number, and zero to minus zero. Other scalars are equal where
/// they are the same.
pub proof fn law_equal_scalars(n: i64, m: i64, x: u64, y: u64, s: Seq<char>, t: Seq<char>)
    ensures
        !same(Val::Long(n), Val::Double(x)),
        !same(Val::Double(x), Val::Long(n)),
        same(Val::Long(n), Val::Long(m)) <==> n == m,
        same(Val::Str(s), Val::Str(t)) <==> s == t,
        !same(Val::Nil, Val::Bool(false)),
        x % 0x8000_0000_0000_0000u64 > 0x7FF0_0000_0000_0000u64 ==> !same(
            Val::Double(x),
            Val::Double(x),
        ),
        x % 0x8000_0000_0000_0000u64 <= 0x7FF0_0000_0000_0000u64 ==> same(
            Val::Double(x),
            Val::Double(x),
        ),
        same(Val::Double(0), Val::Double(0x8000_0000_0000_0000)),
        same(Val::Double(x), Val::Double(y)) ==> x == y || (x % 0x8000_0000_0000_0000u64 == 0 && y
            % 0x8000_0000_0000_0000u64 == 0),
{
}

/// The entry equals one of the entries, key and value.
pub open spec fn matches_one_of(v: (Val, Val), y: Seq<(Val, Val)>) -> bool {
    exists|j: int| 0 <= j < y.len() && same(v.0, (#[trigger] y[j]).0) && same(v.1, y[j].1)
}

/// One of the entries equals the entry, key and value.
pub open spec fn one_matches(x: Seq<(Val, Val)>, v: (Val, Val)) -> bool {
    exists|i: int| 0 <= i < x.len() && same((#[trigger] x[i]).0, v.0) && same(x[i].1, v.1)
}

/// Maps are equal where they are of one size and each entry of one has an equal entry, key and
/// value, in the other.
pub proof fn law_equal_maps(x: Seq<(Val, Val)>, y: Seq<(Val, Val)>)
    ensures
        same(Val::HashMap(x), Val::HashMap(y)) <==> {
            &&& x.len() == y.len()
            &&& forall|i: int| 0 <= i < x.len() ==> #[trigger] matches_one_of(x[i], y)
            &&& forall|j: int| 0 <= j < y.len() ==> #[trigger] one_matches(x, y[j])
        },
{
    reveal(in_any_order);
    let rel = equal_entries(x, y);
    let n = x.len();
    let m = y.len();
    assert forall|i: int| 0 <= i < n implies #[trigger] has_right(rel, m, i) == matches_one_of(
        x[i],
        y,
    ) by {
        if has_right(rel, m, i) {
            let j = choose|j: int| 0 <= j < m && #[trigger] rel(i, j);
            assert(same(x[i].0, y[j].0) && same(x[i].1, y[j].1));
        }
        if matches_one_of(x[i], y) {
            let v = x[i];
            let j = choose|j: int| 0 <= j < y.len() && same(v.0, (#[trigger] y[j]).0) && same(v.1, y[j].1);
            assert(rel(i, j));
        }
    }
    assert forall|j: int| 0 <= j < m implies #[trigger] has_left(rel, n, j) == one_matches(
        x,
        y[j],
    ) by {
        if has_left(rel, n, j) {
            let i = choose|i: int| 0 <= i < n && #[trigger] rel(i, j);
            assert(same(x[i].0, y[j].0) && same(x[i].1, y[j].1));
        }
        if one_matches(x, y[j]) {
            let v = y[j];
            let i = choose|i: int| 0 <= i < x.len() && same((#[trigger] x[i]).0, v.0) && same(x[i].1, v.1);
            assert(rel(i, j));
        }
    }
    if same(Val::HashMap(x), Val::HashMap(y)) {
        assert forall|i: int| 0 <= i < n implies #[trigger] matches_one_of(x[i], y) by {
            assert(has_right(rel, m, i));
        }
        assert forall|j: int| 0 <= j < m implies #[trigger] one_matches(x, y[j]) by {
            assert(has_left(rel, n, j));
        }
    }
    if x.len() == y.len() && (forall|i: int|
        0 <= i < x.len() ==> #[trigger] matches_one_of(x[i], y)) && (forall|j: int|
        0 <= j < y.len() ==> #[trigger] one_matches(x, y[j])) {
        assert forall|i: int| 0 <= i < n implies #[trigger] has_right(rel, m, i) by {
            assert(matches_one_of(x[i], y));
        }
        assert forall|j: int| 0 <= j < m implies #[trigger] has_left(rel, n, j) by {
            assert(one_matches(x, y[j]));
        }
    }
}

} // verus!
