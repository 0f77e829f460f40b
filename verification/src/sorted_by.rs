//! Sorted collections with a user-supplied comparator.
//!
//! Rank-sensitive operations take the comparator as a function. Order-insensitive ones
//! (`get`, `contains_key`, `dissoc`) scan with standard equality; the behaviors agree whenever
//! the comparator is consistent with it.

use vstd::prelude::*;
use crate::bytes::Rank;
use crate::value::{pair_vals, same, vals, Val};
use crate::value::{equal, pairs_copy, value_copy, values_copy, Value, ValueError, ValueResult};

verus! {

/// What the comparator may answer on a pair of values.
pub open spec fn answers<F: Fn(&Value, &Value) -> ValueResult<Rank>>(
    compare: F,
    a: Value,
    b: Value,
    answer: ValueResult<Rank>,
) -> bool {
    call_ensures(compare, (&a, &b), answer)
}

/// Where a value belongs among `items`: the comparator calls an element equal, or the value goes
/// between an element below it and one above.
pub open spec fn belongs<F: Fn(&Value, &Value) -> ValueResult<Rank>>(
    compare: F,
    items: Seq<Value>,
    value: Value,
    place: Result<usize, usize>,
) -> bool {
    match place {
        Ok(i) => i < items.len() && answers(compare, items[i as int], value, Ok(Rank::Same)),
        Err(i) => {
            &&& i <= items.len()
            &&& i > 0 ==> answers(compare, items[i - 1], value, Ok(Rank::Below))
            &&& i < items.len() ==> answers(compare, items[i as int], value, Ok(Rank::Above))
        },
    }
}

/// The stretch that is left to search among `total` elements after some answers: an element below
/// the value rules out those up to it, one above rules out those from it on.
pub open spec fn window(total: int, given: Seq<ValueResult<Rank>>) -> (int, int)
    decreases given.len(),
{
    if given.len() == 0 {
        (0, total)
    } else {
        let (lo, hi) = window(total, given.drop_last());
        match given.last() {
            Ok(Rank::Below) => (middle((lo, hi)) + 1, hi),
            Ok(Rank::Above) => (lo, middle((lo, hi))),
            _ => (lo, hi),
        }
    }
}

/// The element in the middle of a stretch.
pub open spec fn middle(w: (int, int)) -> int {
    w.0 + (w.1 - w.0) / 2
}

/// Answer `k` is the comparator's, on the middle of what the answers before left and on the value;
/// only the last answer may be other than below or above.
pub open spec fn asked<F: Fn(&Value, &Value) -> ValueResult<Rank>>(
    compare: F,
    items: Seq<Value>,
    value: Value,
    given: Seq<ValueResult<Rank>>,
    k: int,
) -> bool {
    let w = window(items.len() as int, given.take(k));
    &&& 0 <= w.0 < w.1 <= items.len()
    &&& answers(compare, items[middle(w)], value, given[k])
    &&& k < given.len() - 1 ==> narrows(given[k])
}

/// The answer rules elements out: below or above.
pub open spec fn narrows(answer: ValueResult<Rank>) -> bool {
    answer == Ok::<Rank, ValueError>(Rank::Below) || answer == Ok::<Rank, ValueError>(Rank::Above)
}

/// The comparator was asked `given.len()` times, and answered `given`.
pub open spec fn traced<F: Fn(&Value, &Value) -> ValueResult<Rank>>(
    compare: F,
    items: Seq<Value>,
    value: Value,
    given: Seq<ValueResult<Rank>>,
) -> bool {
    forall|k: int|
        0 <= k < given.len() ==> #[trigger] asked(compare, items, value, given, k)
}

/// What a search comes to after some answers: it fails with an error exactly where the last answer
/// is that error, it ends at an element called equal, and it ends where nothing is left.
pub open spec fn outcome(total: int, given: Seq<ValueResult<Rank>>) -> Option<
    ValueResult<Result<usize, usize>>,
> {
    let w = window(total, given);
    if given.len() > 0 && given.last() is Err {
        Some(Err(given.last()->Err_0))
    } else if given.len() > 0 && given.last() == Ok::<Rank, ValueError>(Rank::Same) {
        Some(Ok(Ok(middle(w) as usize)))
    } else if w.0 == w.1 {
        Some(Ok(Err(w.0 as usize)))
    } else {
        None
    }
}

/// Bisecting `items` for the value comes to `found`, by the answers that the comparator gave.
pub open spec fn searched<F: Fn(&Value, &Value) -> ValueResult<Rank>>(
    compare: F,
    items: Seq<Value>,
    value: Value,
    given: Seq<ValueResult<Rank>>,
    found: ValueResult<Result<usize, usize>>,
) -> bool {
    traced(compare, items, value, given) && outcome(items.len() as int, given) == Some(found)
}

/// One more answer, on the middle of what is left.
proof fn lemma_one_more_answer<F: Fn(&Value, &Value) -> ValueResult<Rank>>(
    compare: F,
    items: Seq<Value>,
    value: Value,
    before: Seq<ValueResult<Rank>>,
    answer: ValueResult<Rank>,
)
    requires
        traced(compare, items, value, before),
        ({
            let w = window(items.len() as int, before);
            0 <= w.0 < w.1 <= items.len() && answers(compare, items[middle(w)], value, answer)
        }),
        before.len() > 0 ==> narrows(before.last()),
    ensures
        traced(compare, items, value, before.push(answer)),
        before.push(answer).last() == answer,
        window(items.len() as int, before.push(answer)) == ({
            let w = window(items.len() as int, before);
            match answer {
                Ok(Rank::Below) => (middle(w) + 1, w.1),
                Ok(Rank::Above) => (w.0, middle(w)),
                _ => w,
            }
        }),
{
    let given = before.push(answer);
    assert(given.drop_last() =~= before);
    assert forall|k: int| 0 <= k < given.len() implies #[trigger] asked(
        compare,
        items,
        value,
        given,
        k,
    ) by {
        if k < before.len() {
            assert(asked(compare, items, value, before, k));
            assert(given.take(k) =~= before.take(k));
            assert(given[k] == before[k]);
        } else {
            assert(given.take(k) =~= before);
        }
    }
}

/// The values that references refer to.
spec fn referred(items: Seq<&Value>) -> Seq<Value> {
    items.map_values(|v: &Value| *v)
}

/// Fallible binary search: the comparator compares element `i` to the value. `Ok(i)` is an
/// element it calls equal; `Err(i)` is the insertion point. A comparison that fails ends it.
fn binary_search<F: Fn(&Value, &Value) -> ValueResult<Rank>>(
    items: &Vec<&Value>,
    value: &Value,
    compare: &F,
) -> (r: ValueResult<Result<usize, usize>>)
    requires
        forall|a: &Value, b: &Value| #[trigger] call_requires(*compare, (a, b)),
    ensures
        exists|given: Seq<ValueResult<Rank>>| #[trigger]
            searched(*compare, referred(items@), *value, given, r),
        r matches Ok(place) ==> belongs(*compare, referred(items@), *value, place),
{
    let ghost plain = referred(items@);
    let ghost mut given: Seq<ValueResult<Rank>> = Seq::empty();
    let mut lo: usize = 0;
    let mut hi: usize = items.len();
    while lo < hi
        invariant
            lo <= hi <= items@.len(),
            plain.len() == items@.len(),
            plain == referred(items@),
            forall|a: &Value, b: &Value| #[trigger] call_requires(*compare, (a, b)),
            lo > 0 ==> answers(*compare, plain[lo - 1], *value, Ok(Rank::Below)),
            hi < items@.len() ==> answers(
                *compare,
                plain[hi as int],
                *value,
                Ok(Rank::Above),
            ),
            window(plain.len() as int, given) == (lo as int, hi as int),
            traced(*compare, plain, *value, given),
            given.len() > 0 ==> narrows(given.last()),
        decreases hi - lo,
    {
        let mid: usize = lo + (hi - lo) / 2;
        assert(call_requires(*compare, (items@[mid as int], value)));
        let answer = compare(items[mid], value);
        assert(plain[mid as int] == *items@[mid as int]);
        let ghost before = given;
        proof {
            given = before.push(answer);
            lemma_one_more_answer(*compare, plain, *value, before, answer);
        }
        match answer {
            Ok(Rank::Below) => {
                lo = mid + 1;
            },
            Ok(Rank::Above) => {
                hi = mid;
            },
            Ok(Rank::Same) => {
                let found: ValueResult<Result<usize, usize>> = Ok(Ok(mid));
                assert(searched(*compare, plain, *value, given, found));
                return found;
            },
            Err(e) => {
                let found: ValueResult<Result<usize, usize>> = Err(e);
                assert(searched(*compare, plain, *value, given, found));
                return found;
            },
        }
    }
    let found: ValueResult<Result<usize, usize>> = Ok(Err(lo));
    assert(searched(*compare, plain, *value, given, found));
    found
}

/// The stretch that is left to search lies between an element below the value and one above.
proof fn lemma_window<F: Fn(&Value, &Value) -> ValueResult<Rank>>(
    compare: F,
    items: Seq<Value>,
    value: Value,
    given: Seq<ValueResult<Rank>>,
)
    requires
        traced(compare, items, value, given),
    ensures
        ({
            let w = window(items.len() as int, given);
            &&& 0 <= w.0 <= w.1 <= items.len()
            &&& w.0 > 0 ==> answers(compare, items[w.0 - 1], value, Ok(Rank::Below))
            &&& w.1 < items.len() ==> answers(compare, items[w.1], value, Ok(Rank::Above))
        }),
    decreases given.len(),
{
    if given.len() > 0 {
        let rest = given.drop_last();
        assert forall|k: int| 0 <= k < rest.len() implies #[trigger] asked(
            compare,
            items,
            value,
            rest,
            k,
        ) by {
            assert(asked(compare, items, value, given, k));
            assert(rest.take(k) =~= given.take(k));
            assert(rest[k] == given[k]);
        }
        lemma_window(compare, items, value, rest);
        assert(asked(compare, items, value, given, given.len() - 1));
        assert(given.take(given.len() - 1) =~= rest);
        assert(given[given.len() - 1] == given.last());
    }
}

/// A search that ends well finds where the value belongs.
pub proof fn law_search_finds_the_place<F: Fn(&Value, &Value) -> ValueResult<Rank>>(
    compare: F,
    items: Seq<Value>,
    value: Value,
    given: Seq<ValueResult<Rank>>,
    place: Result<usize, usize>,
)
    requires
        items.len() <= usize::MAX,
        searched(compare, items, value, given, Ok(place)),
    ensures
        belongs(compare, items, value, place),
{
    lemma_window(compare, items, value, given);
    if given.len() > 0 {
        assert(asked(compare, items, value, given, given.len() - 1));
        assert(given.take(given.len() - 1) =~= given.drop_last());
        assert(given[given.len() - 1] == given.last());
    }
}

/// A search fails exactly where a comparison failed, and with its error: the last one made.
pub proof fn law_search_fails_with_a_comparison<F: Fn(&Value, &Value) -> ValueResult<Rank>>(
    compare: F,
    items: Seq<Value>,
    value: Value,
    given: Seq<ValueResult<Rank>>,
    found: ValueResult<Result<usize, usize>>,
)
    requires
        searched(compare, items, value, given, found),
    ensures
        found is Err <==> exists|k: int| 0 <= k < given.len() && (#[trigger] given[k]) is Err,
        forall|k: int|
            0 <= k < given.len() && (#[trigger] given[k]) is Err ==> k == given.len() - 1
                && found->Err_0 == given[k]->Err_0,
        found matches Err(e) ==> exists|i: int|
            0 <= i < items.len() && answers(compare, #[trigger] items[i], value, Err(e)),
{
    assert forall|k: int| 0 <= k < given.len() && (#[trigger] given[k]) is Err implies k
        == given.len() - 1 by {
        assert(asked(compare, items, value, given, k));
    }
    if found is Err {
        let last = given.len() - 1;
        assert(given[last] == given.last());
        assert(asked(compare, items, value, given, last));
        let w = window(items.len() as int, given.take(last));
        assert(answers(compare, items[middle(w)], value, given[last]));
    }
}

/// A total order on values, which may call different values equal.
pub open spec fn total_order(le: spec_fn(Val, Val) -> bool) -> bool {
    &&& forall|a: Val, b: Val| #[trigger] le(a, b) || le(b, a)
    &&& forall|a: Val, b: Val, c: Val| #[trigger] le(a, b) && #[trigger] le(b, c) ==> le(a, c)
}

/// The comparator answers as the order does, where it does not fail.
pub open spec fn orders_by<F: Fn(&Value, &Value) -> ValueResult<Rank>>(
    compare: F,
    le: spec_fn(Val, Val) -> bool,
) -> bool {
    forall|a: Value, b: Value, answer: ValueResult<Rank>| #[trigger]
        answers(compare, a, b, answer) ==> (answer matches Ok(o) ==> (match o {
            Rank::Below => le(a.view(), b.view()) && !le(b.view(), a.view()),
            Rank::Same => le(a.view(), b.view()) && le(b.view(), a.view()),
            Rank::Above => le(b.view(), a.view()) && !le(a.view(), b.view()),
        }))
}

/// One value lies below another.
pub open spec fn below(le: spec_fn(Val, Val) -> bool, a: Val, b: Val) -> bool {
    le(a, b) && !le(b, a)
}

/// The values ascend strictly.
pub open spec fn ascends(items: Seq<Val>, le: spec_fn(Val, Val) -> bool) -> bool {
    forall|i: int, j: int|
        0 <= i < j < items.len() ==> below(le, #[trigger] items[i], #[trigger] items[j])
}

/// The entries with one put in its place: over the entry found, or between its neighbors.
pub open spec fn placed<T>(items: Seq<T>, place: Result<usize, usize>, item: T) -> Seq<T> {
    match place {
        Ok(i) => items.update(i as int, item),
        Err(i) => items.insert(i as int, item),
    }
}

/// Where a value belongs, every element before is below it and every element behind is above; the
/// element at its place, if one is found, is its equal.
pub proof fn law_place_parts_the_elements<F: Fn(&Value, &Value) -> ValueResult<Rank>>(
    compare: F,
    le: spec_fn(Val, Val) -> bool,
    items: Seq<Value>,
    value: Value,
    place: Result<usize, usize>,
)
    requires
        total_order(le),
        orders_by(compare, le),
        ascends(vals(items), le),
        belongs(compare, items, value, place),
    ensures
        ({
            let at = match place {
                Ok(p) => p as int,
                Err(p) => p as int,
            };
            &&& forall|i: int|
                0 <= i < at ==> below(le, #[trigger] vals(items)[i], value.view())
            &&& forall|i: int|
                at < i < items.len() ==> below(le, value.view(), #[trigger] vals(items)[i])
            &&& place is Err && at < items.len() ==> below(le, value.view(), vals(items)[at])
            &&& place is Ok ==> le(vals(items)[at], value.view()) && le(
                value.view(),
                vals(items)[at],
            )
        }),
{
    let all = vals(items);
    let v = value.view();
    match place {
        Ok(p) => {
            let at = p as int;
            assert(all[at] == items[at].view());
            assert forall|i: int| 0 <= i < at implies below(le, #[trigger] all[i], v) by {
                assert(below(le, all[i], all[at]));
                assert(le(all[i], all[at]) && le(all[at], v));
                if le(v, all[i]) {
                    assert(le(all[at], v) && le(v, all[i]));
                    assert(le(all[at], all[i]));
                }
            }
            assert forall|i: int| at < i < items.len() implies below(
                le,
                v,
                #[trigger] all[i],
            ) by {
                assert(below(le, all[at], all[i]));
                assert(le(v, all[at]) && le(all[at], all[i]));
                if le(all[i], v) {
                    assert(le(all[i], v) && le(v, all[at]));
                    assert(le(all[i], all[at]));
                }
            }
        },
        Err(p) => {
            let at = p as int;
            assert forall|i: int| 0 <= i < at implies below(le, #[trigger] all[i], v) by {
                let n = all[at - 1];
                assert(n == items[at - 1].view());
                if i < at - 1 {
                    assert(below(le, all[i], n));
                    assert(le(all[i], n) && le(n, v));
                    if le(v, all[i]) {
                        assert(le(v, all[i]) && le(all[i], n));
                        assert(le(v, n));
                    }
                }
            }
            if at < items.len() {
                let n = all[at];
                assert(n == items[at].view());
                assert forall|i: int| at < i < items.len() implies below(
                    le,
                    v,
                    #[trigger] all[i],
                ) by {
                    assert(below(le, n, all[i]));
                    assert(le(v, n) && le(n, all[i]));
                    if le(all[i], v) {
                        assert(le(n, all[i]) && le(all[i], v));
                        assert(le(n, v));
                    }
                }
            }
        },
    }
}

/// A comparator that answers by a total order keeps the collection in order: an element put where
/// it belongs leaves the elements ascending.
pub proof fn law_placing_keeps_order<F: Fn(&Value, &Value) -> ValueResult<Rank>>(
    compare: F,
    le: spec_fn(Val, Val) -> bool,
    items: Seq<Value>,
    value: Value,
    place: Result<usize, usize>,
)
    requires
        total_order(le),
        orders_by(compare, le),
        ascends(vals(items), le),
        belongs(compare, items, value, place),
    ensures
        ascends(vals(placed(items, place, value)), le),
{
    let before = vals(items);
    let after = vals(placed(items, place, value));
    law_place_parts_the_elements(compare, le, items, value, place);
    let at = match place {
        Ok(p) => p as int,
        Err(p) => p as int,
    };
    assert forall|i: int, j: int| 0 <= i < j < after.len() implies below(
        le,
        #[trigger] after[i],
        #[trigger] after[j],
    ) by {
        match place {
            Ok(_) => {
                assert(after =~= before.update(at, value.view()));
                if i != at && j != at {
                    assert(after[i] == before[i] && after[j] == before[j]);
                } else if i == at {
                    assert(after[j] == before[j]);
                } else {
                    assert(after[i] == before[i]);
                }
            },
            Err(_) => {
                assert(after =~= before.insert(at, value.view()));
                let a = if i < at { i } else { i - 1 };
                let b = if j < at { j } else { j - 1 };
                if i != at && j != at {
                    assert(after[i] == before[a] && after[j] == before[b]);
                } else if i == at {
                    assert(after[j] == before[b]);
                } else {
                    assert(after[i] == before[a]);
                }
            },
        }
    }
}

/// The position of the first entry whose key equals `key`.
pub open spec fn first_key(entries: Seq<(Val, Val)>, key: Val) -> Option<int>
    decreases entries.len(),
{
    if entries.len() == 0 {
        None
    } else if first_key(entries.drop_last(), key) is Some {
        first_key(entries.drop_last(), key)
    } else if same(entries.last().0, key) {
        Some(entries.len() - 1)
    } else {
        None
    }
}

/// An element of `items` equals `v`.
pub open spec fn has_item(items: Seq<Val>, v: Val) -> bool {
    exists|i: int| 0 <= i < items.len() && same(#[trigger] items[i], v)
}

/// The entries whose key does not equal `key`.
pub open spec fn keys_but(entries: Seq<(Val, Val)>, key: Val) -> Seq<(Val, Val)>
    decreases entries.len(),
{
    if entries.len() == 0 {
        entries
    } else if same(entries.last().0, key) {
        keys_but(entries.drop_last(), key)
    } else {
        keys_but(entries.drop_last(), key).push(entries.last())
    }
}

/// The elements that do not equal `v`.
pub open spec fn items_but(items: Seq<Val>, v: Val) -> Seq<Val>
    decreases items.len(),
{
    if items.len() == 0 {
        items
    } else if same(items.last(), v) {
        items_but(items.drop_last(), v)
    } else {
        items_but(items.drop_last(), v).push(items.last())
    }
}

proof fn lemma_first_key(entries: Seq<(Val, Val)>, key: Val)
    ensures
        match first_key(entries, key) {
            Some(i) => 0 <= i < entries.len() && same(entries[i].0, key) && forall|j: int|
                0 <= j < i ==> !same((#[trigger] entries[j]).0, key),
            None => forall|j: int|
                0 <= j < entries.len() ==> !same((#[trigger] entries[j]).0, key),
        },
    decreases entries.len(),
{
    if entries.len() > 0 {
        let rest = entries.drop_last();
        lemma_first_key(rest, key);
        if first_key(rest, key) is Some {
            let i = first_key(rest, key)->0;
            assert(rest[i] == entries[i]);
            assert forall|j: int| 0 <= j < i implies !same((#[trigger] entries[j]).0, key) by {
                assert(rest[j] == entries[j]);
            }
        } else {
            assert forall|j: int| 0 <= j < entries.len() - 1 implies !same(
                (#[trigger] entries[j]).0,
                key,
            ) by {
                assert(rest[j] == entries[j]);
            }
        }
    }
}

/// The value under the first key that equals `key`.
pub open spec fn value_of(entries: Seq<(Val, Val)>, key: Val) -> Option<Val> {
    match first_key(entries, key) {
        Some(i) => Some(entries[i].1),
        None => None,
    }
}

/// The order is consistent with equality among some values: it calls those equal that are.
pub open spec fn consistent(
    le: spec_fn(Val, Val) -> bool,
    among: spec_fn(Val) -> bool,
) -> bool {
    forall|a: Val, b: Val|
        among(a) && among(b) ==> (le(a, b) && le(b, a) <==> #[trigger] same(a, b))
}

/// Where the comparator is consistent with equality, what it puts in its place is what a lookup by
/// equality finds, and other keys read as before.
pub proof fn law_lookup_after_placing<F: Fn(&Value, &Value) -> ValueResult<Rank>>(
    compare: F,
    le: spec_fn(Val, Val) -> bool,
    among: spec_fn(Val) -> bool,
    keys: Seq<Value>,
    entries: Seq<(Val, Val)>,
    key: Value,
    value: Val,
    place: Result<usize, usize>,
    other: Val,
)
    requires
        total_order(le),
        orders_by(compare, le),
        consistent(le, among),
        among(key.view()),
        among(other),
        forall|i: int| 0 <= i < entries.len() ==> among((#[trigger] entries[i]).0),
        keys.len() == entries.len(),
        forall|i: int| 0 <= i < keys.len() ==> (#[trigger] keys[i]).view() == entries[i].0,
        ascends(vals(keys), le),
        belongs(compare, keys, key, place),
    ensures
        value_of(placed(entries, place, (key.view(), value)), other) == if same(key.view(), other) {
            Some(value)
        } else {
            value_of(entries, other)
        },
{
    let after = placed(entries, place, (key.view(), value));
    let after_keys = placed(keys, place, key);
    law_placing_keeps_order(compare, le, keys, key, place);
    law_place_parts_the_elements(compare, le, keys, key, place);
    assert forall|i: int| 0 <= i < after.len() implies vals(after_keys)[i] == (#[trigger] after[i]).0
        && among(after[i].0) by {
        match place {
            Ok(p) => {
                if i != p {
                    assert(after[i] == entries[i]);
                }
            },
            Err(p) => {
                if i < p {
                    assert(after[i] == entries[i]);
                } else if i > p {
                    assert(after[i] == entries[i - 1]);
                    assert(after_keys[i] == keys[i - 1]);
                }
            },
        }
    }
    // No two keys that are left equal the same key.
    assert forall|i: int, j: int|
        0 <= i < j < after.len() && same((#[trigger] after[i]).0, other) implies !same(
        (#[trigger] after[j]).0,
        other,
    ) by {
        let x = vals(after_keys)[i];
        let y = vals(after_keys)[j];
        assert(below(le, x, y));
        if same(y, other) {
            assert(le(y, other) && le(other, x));
            assert(le(y, x));
        }
    }
    lemma_first_key(entries, other);
    lemma_first_key(after, other);
    let p: int = match place {
        Ok(p) => p as int,
        Err(p) => p as int,
    };
    assert(after[p] == (key.view(), value));
    if same(key.view(), other) {
        assert(same(after[p].0, other));
        assert(first_key(after, other) == Some(p));
    } else {
        match first_key(entries, other) {
            Some(i) => {
                let k: int = match place {
                    Ok(q) => {
                        if i == q {
                            let x = entries[i].0;
                            assert(x == vals(keys)[i]);
                            assert(same(x, other));
                            assert(le(key.view(), x) && le(x, other));
                            assert(le(other, x) && le(x, key.view()));
                            assert(same(key.view(), other));
                        }
                        i
                    },
                    Err(q) => if i < q {
                        i
                    } else {
                        i + 1
                    },
                };
                assert(after[k] == entries[i]);
                assert(same(after[k].0, other));
                assert(first_key(after, other) == Some(k));
            },
            None => {
                if let Some(j) = first_key(after, other) {
                    if j != p {
                        let i: int = match place {
                            Ok(_) => j,
                            Err(q) => if j < q {
                                j
                            } else {
                                j - 1
                            },
                        };
                        assert(after[j] == entries[i]);
                    }
                }
            },
        }
    }
}

/// As many entries, and under each key of the one an equal value in the other.
pub open spec fn equal_sorted(a: Seq<(Val, Val)>, b: Seq<(Val, Val)>) -> bool {
    &&& a.len() == b.len()
    &&& forall|i: int|
        0 <= i < a.len() ==> (first_key(b, (#[trigger] a[i]).0) matches Some(j) && same(
            b[j].1,
            a[i].1,
        ))
}

/// A map sorted by a comparator.
#[derive(Debug)]
pub struct SortedByMap {
    /// The comparator, kept so that what is built on this map keeps ordering with it.
    pub comparator: Value,
    /// The entries, kept sorted by the comparator.
    pub pairs: Vec<(Value, Value)>,
}

impl SortedByMap {
    /// The entries in order.
    pub open spec fn view(&self) -> Seq<(Val, Val)> {
        pair_vals(self.pairs@)
    }

    /// The keys in order, as the comparator gets them.
    pub open spec fn sorted_keys(&self) -> Seq<Value> {
        self.pairs@.map_values(|p: (Value, Value)| p.0)
    }

    pub fn new(comparator: Value) -> (r: Self)
        ensures
            r.comparator == comparator,
            r.view().len() == 0,
    {
        SortedByMap { comparator, pairs: Vec::new() }
    }

    pub fn count(&self) -> (r: usize)
        ensures
            r == self.view().len(),
    {
        self.pairs.len()
    }

    pub fn is_empty(&self) -> (r: bool)
        ensures
            r == (self.view().len() == 0),
    {
        self.pairs.len() == 0
    }

    /// All entries in order.
    pub fn iter(&self) -> (r: Vec<(&Value, &Value)>)
        ensures
            r@.len() == self.view().len(),
            forall|i: int|
                0 <= i < r@.len() ==> (#[trigger] r@[i]).0.view() == self.view()[i].0
                    && r@[i].1.view() == self.view()[i].1,
    {
        let mut r: Vec<(&Value, &Value)> = Vec::new();
        for i in 0..self.pairs.len()
            invariant
                r@.len() == i,
                self.view() == pair_vals(self.pairs@),
                forall|j: int|
                    0 <= j < i ==> (#[trigger] r@[j]).0.view() == self.view()[j].0
                        && r@[j].1.view() == self.view()[j].1,
        {
            r.push((&self.pairs[i].0, &self.pairs[i].1));
        }
        r
    }

    pub fn keys(&self) -> (r: Vec<Value>)
        ensures
            vals(r@) == self.view().map_values(|e: (Val, Val)| e.0),
    {
        let mut r: Vec<Value> = Vec::new();
        for i in 0..self.pairs.len()
            invariant
                r@.len() == i,
                self.view() == pair_vals(self.pairs@),
                forall|j: int| 0 <= j < i ==> (#[trigger] r@[j]).view() == self.view()[j].0,
        {
            r.push(value_copy(&self.pairs[i].0));
        }
        assert(vals(r@) =~= self.view().map_values(|e: (Val, Val)| e.0));
        r
    }

    pub fn vals(&self) -> (r: Vec<Value>)
        ensures
            vals(r@) == self.view().map_values(|e: (Val, Val)| e.1),
    {
        let mut r: Vec<Value> = Vec::new();
        for i in 0..self.pairs.len()
            invariant
                r@.len() == i,
                self.view() == pair_vals(self.pairs@),
                forall|j: int| 0 <= j < i ==> (#[trigger] r@[j]).view() == self.view()[j].1,
        {
            r.push(value_copy(&self.pairs[i].1));
        }
        assert(vals(r@) =~= self.view().map_values(|e: (Val, Val)| e.1));
        r
    }

    fn position(&self, key: &Value) -> (r: Option<usize>)
        ensures
            (match r {
                Some(i) => Some(i as int),
                None => None,
            }) == first_key(self.view(), key.view()),
            r matches Some(i) ==> i < self.pairs@.len(),
    {
        proof {
            lemma_first_key(self.view(), key.view());
        }
        for i in 0..self.pairs.len()
            invariant
                self.view() == pair_vals(self.pairs@),
                match first_key(self.view(), key.view()) {
                    Some(i) => 0 <= i < self.view().len() && same(self.view()[i].0, key.view())
                        && forall|j: int|
                        0 <= j < i ==> !same((#[trigger] self.view()[j]).0, key.view()),
                    None => forall|j: int|
                        0 <= j < self.view().len() ==> !same(
                            (#[trigger] self.view()[j]).0,
                            key.view(),
                        ),
                },
                forall|j: int| 0 <= j < i ==> !same((#[trigger] self.view()[j]).0, key.view()),
        {
            if equal(&self.pairs[i].0, key) {
                assert(same(self.view()[i as int].0, key.view()));
                return Some(i);
            }
        }
        None
    }

    pub fn get(&self, key: &Value) -> (r: Option<&Value>)
        ensures
            (match r {
                Some(v) => Some(v.view()),
                None => None,
            }) == (match first_key(self.view(), key.view()) {
                Some(i) => Some(self.view()[i].1),
                None => None,
            }),
    {
        match self.position(key) {
            Some(i) => Some(&self.pairs[i].1),
            None => None,
        }
    }

    pub fn contains_key(&self, key: &Value) -> (r: bool)
        ensures
            r == first_key(self.view(), key.view()) is Some,
    {
        self.position(key).is_some()
    }

    pub fn dissoc(&self, key: &Value) -> (r: Self)
        ensures
            r.comparator.view() == self.comparator.view(),
            r.view() == keys_but(self.view(), key.view()),
    {
        let mut pairs: Vec<(Value, Value)> = Vec::new();
        proof {
            assert(pair_vals(self.pairs@).take(0) =~= Seq::empty());
            assert(pair_vals(pairs@) =~= Seq::empty());
        }
        for i in 0..self.pairs.len()
            invariant
                pair_vals(pairs@) == keys_but(pair_vals(self.pairs@).take(i as int), key.view()),
        {
            proof {
                let all = pair_vals(self.pairs@);
                let seen = all.take(i + 1);
                assert(seen.drop_last() =~= all.take(i as int));
                assert(seen.last() == all[i as int]);
            }
            if !equal(&self.pairs[i].0, key) {
                let ghost before = pairs@;
                pairs.push((value_copy(&self.pairs[i].0), value_copy(&self.pairs[i].1)));
                assert(pair_vals(pairs@) =~= pair_vals(before).push(
                    pair_vals(self.pairs@)[i as int],
                ));
            }
        }
        assert(pair_vals(self.pairs@).take(self.pairs@.len() as int) =~= pair_vals(self.pairs@));
        SortedByMap { comparator: value_copy(&self.comparator), pairs }
    }

    /// Rebuild from pairs that are already in comparator order.
    pub fn from_sorted_pairs(comparator: Value, pairs: Vec<(Value, Value)>) -> (r: Self)
        ensures
            r.comparator == comparator,
            r.view() == pair_vals(pairs@),
    {
        SortedByMap { comparator, pairs }
    }

    /// Insert, or replace the entry whose key the comparator calls equal, by binary search.
    pub fn assoc_with<F: Fn(&Value, &Value) -> ValueResult<Rank>>(
        &self,
        key: Value,
        value: Value,
        compare: F,
    ) -> (r: ValueResult<Self>)
        requires
            forall|a: &Value, b: &Value| #[trigger] call_requires(compare, (a, b)),
        ensures
            exists|given: Seq<ValueResult<Rank>>, found: ValueResult<Result<usize, usize>>|
                {
                    &&& #[trigger] searched(compare, self.sorted_keys(), key, given, found)
                    &&& match found {
                        Ok(place) => r matches Ok(m) && m.comparator.view()
                            == self.comparator.view() && m.view() == placed(
                            self.view(),
                            place,
                            (key.view(), value.view()),
                        ),
                        Err(e) => r == Err::<SortedByMap, ValueError>(e),
                    }
                },
    {
        let mut keys: Vec<&Value> = Vec::new();
        for i in 0..self.pairs.len()
            invariant
                keys@.len() == i,
                forall|j: int| 0 <= j < i ==> *(#[trigger] keys@[j]) == self.pairs@[j].0,
        {
            keys.push(&self.pairs[i].0);
        }
        proof {
            assert(referred(keys@) =~= self.sorted_keys());
        }
        let found = binary_search(&keys, &key, &compare);
        let ghost given = choose|given: Seq<ValueResult<Rank>>| #[trigger]
            searched(compare, self.sorted_keys(), key, given, found);
        assert(searched(compare, self.sorted_keys(), key, given, found));
        let place = match found {
            Ok(place) => place,
            Err(e) => {
                return Err(e);
            },
        };
        let ghost entry = (key.view(), value.view());
        let mut pairs = pairs_copy(&self.pairs);
        assert(pair_vals(pairs@) == self.view());
        assert(pairs@.len() == pair_vals(pairs@).len());
        let ghost before = pairs@;
        match place {
            Ok(i) => {
                pairs.set(i, (key, value));
                assert(pair_vals(pairs@) =~= pair_vals(before).update(i as int, entry));
            },
            Err(i) => {
                pairs.insert(i, (key, value));
                assert(pair_vals(pairs@) =~= pair_vals(before).insert(i as int, entry));
            },
        }
        Ok(SortedByMap { comparator: value_copy(&self.comparator), pairs })
    }

    /// Whether both maps bind equal keys to equal values, in whatever order.
    pub fn equals(&self, other: &Self) -> (r: bool)
        ensures
            r == equal_sorted(self.view(), other.view()),
    {
        if self.pairs.len() != other.pairs.len() {
            return false;
        }
        proof {
            assert forall|k: Val| #![trigger first_key(other.view(), k)] first_key(
                other.view(),
                k,
            ) matches Some(j) ==> 0 <= j < other.view().len() by {
                lemma_first_key(other.view(), k);
            }
        }
        for i in 0..self.pairs.len()
            invariant
                self.view().len() == other.view().len(),
                self.view() == pair_vals(self.pairs@),
                forall|j: int|
                    0 <= j < i ==> (first_key(other.view(), (#[trigger] self.view()[j]).0) matches Some(
                        k,
                    ) && same(other.view()[k].1, self.view()[j].1)),
        {
            let found = match other.get(&self.pairs[i].0) {
                Some(v) => equal(v, &self.pairs[i].1),
                None => false,
            };
            if !found {
                assert(self.view()[i as int].0 == self.pairs@[i as int].0.view());
                return false;
            }
        }
        true
    }
}

impl Clone for SortedByMap {
    fn clone(&self) -> (r: Self)
        ensures
            r.comparator.view() == self.comparator.view(),
            r.view() == self.view(),
    {
        SortedByMap { comparator: value_copy(&self.comparator), pairs: pairs_copy(&self.pairs) }
    }
}

impl PartialEq for SortedByMap {
    fn eq(&self, other: &Self) -> (r: bool) {
        self.equals(other)
    }
}

impl vstd::std_specs::cmp::PartialEqSpecImpl for SortedByMap {
    open spec fn obeys_eq_spec() -> bool {
        true
    }

    open spec fn eq_spec(&self, other: &Self) -> bool {
        equal_sorted(self.view(), other.view())
    }
}

/// A set sorted by a comparator.
#[derive(Debug)]
pub struct SortedBySet {
    pub comparator: Value,
    pub items: Vec<Value>,
}

impl SortedBySet {
    /// The elements in order.
    pub open spec fn view(&self) -> Seq<Val> {
        vals(self.items@)
    }

    /// The elements in order, as the comparator gets them.
    pub open spec fn sorted_items(&self) -> Seq<Value> {
        self.items@
    }

    pub fn new(comparator: Value) -> (r: Self)
        ensures
            r.comparator == comparator,
            r.view().len() == 0,
    {
        SortedBySet { comparator, items: Vec::new() }
    }

    pub fn count(&self) -> (r: usize)
        ensures
            r == self.view().len(),
    {
        self.items.len()
    }

    pub fn is_empty(&self) -> (r: bool)
        ensures
            r == (self.view().len() == 0),
    {
        self.items.len() == 0
    }

    /// All elements in order.
    pub fn iter(&self) -> (r: &Vec<Value>)
        ensures
            vals(r@) == self.view(),
    {
        &self.items
    }

    pub fn contains(&self, value: &Value) -> (r: bool)
        ensures
            r == has_item(self.view(), value.view()),
    {
        for i in 0..self.items.len()
            invariant
                self.view() == vals(self.items@),
                forall|j: int| 0 <= j < i ==> !same(#[trigger] self.view()[j], value.view()),
        {
            if equal(&self.items[i], value) {
                assert(same(self.view()[i as int], value.view()));
                return true;
            }
        }
        false
    }

    /// Order-blind insert, for where no comparator is at hand: appends unless an equal element is
    /// present.
    pub fn push_if_absent(&mut self, value: Value)
        ensures
            final(self).comparator == old(self).comparator,
            final(self).view() == if has_item(old(self).view(), value.view()) {
                old(self).view()
            } else {
                old(self).view().push(value.view())
            },
    {
        let ghost before = self.view();
        if !self.contains(&value) {
            let ghost v = value.view();
            self.items.push(value);
            assert(self.view() =~= before.push(v));
        }
    }

    pub fn disj(&self, value: &Value) -> (r: Self)
        ensures
            r.comparator.view() == self.comparator.view(),
            r.view() == items_but(self.view(), value.view()),
    {
        let mut items: Vec<Value> = Vec::new();
        proof {
            assert(vals(self.items@).take(0) =~= Seq::empty());
            assert(vals(items@) =~= Seq::empty());
        }
        for i in 0..self.items.len()
            invariant
                vals(items@) == items_but(vals(self.items@).take(i as int), value.view()),
        {
            proof {
                let all = vals(self.items@);
                let seen = all.take(i + 1);
                assert(seen.drop_last() =~= all.take(i as int));
                assert(seen.last() == all[i as int]);
            }
            if !equal(&self.items[i], value) {
                let ghost before = items@;
                items.push(value_copy(&self.items[i]));
                assert(vals(items@) =~= vals(before).push(vals(self.items@)[i as int]));
            }
        }
        assert(vals(self.items@).take(self.items@.len() as int) =~= vals(self.items@));
        SortedBySet { comparator: value_copy(&self.comparator), items }
    }

    /// Insert by binary search; an element that the comparator calls equal stays in place.
    pub fn conj_with<F: Fn(&Value, &Value) -> ValueResult<Rank>>(
        &self,
        value: Value,
        compare: F,
    ) -> (r: ValueResult<Self>)
        requires
            forall|a: &Value, b: &Value| #[trigger] call_requires(compare, (a, b)),
        ensures
            exists|given: Seq<ValueResult<Rank>>, found: ValueResult<Result<usize, usize>>|
                {
                    &&& #[trigger] searched(compare, self.sorted_items(), value, given, found)
                    &&& match found {
                        Ok(place) => r matches Ok(s) && s.comparator.view()
                            == self.comparator.view() && s.view() == (match place {
                            Ok(_) => self.view(),
                            Err(i) => self.view().insert(i as int, value.view()),
                        }),
                        Err(e) => r == Err::<SortedBySet, ValueError>(e),
                    }
                },
    {
        let mut refs: Vec<&Value> = Vec::new();
        for i in 0..self.items.len()
            invariant
                refs@.len() == i,
                forall|j: int| 0 <= j < i ==> *(#[trigger] refs@[j]) == self.items@[j],
        {
            refs.push(&self.items[i]);
        }
        proof {
            assert(referred(refs@) =~= self.sorted_items());
        }
        let found = binary_search(&refs, &value, &compare);
        let ghost given = choose|given: Seq<ValueResult<Rank>>| #[trigger]
            searched(compare, self.sorted_items(), value, given, found);
        assert(searched(compare, self.sorted_items(), value, given, found));
        let place = match found {
            Ok(place) => place,
            Err(e) => {
                return Err(e);
            },
        };
        let ghost v = value.view();
        let mut items = values_copy(&self.items);
        assert(items@.len() == vals(items@).len());
        let ghost before = items@;
        match place {
            Ok(_) => {},
            Err(i) => {
                items.insert(i, value);
                assert(vals(items@) =~= vals(before).insert(i as int, v));
            },
        }
        Ok(SortedBySet { comparator: value_copy(&self.comparator), items })
    }

    /// Whether both sets hold equal elements, in whatever order.
    pub fn equals(&self, other: &Self) -> (r: bool)
        ensures
            r == (self.view().len() == other.view().len() && forall|i: int|
                0 <= i < self.view().len() ==> has_item(other.view(), #[trigger] self.view()[i])),
    {
        if self.items.len() != other.items.len() {
            return false;
        }
        for i in 0..self.items.len()
            invariant
                self.view() == vals(self.items@),
                forall|j: int| 0 <= j < i ==> has_item(other.view(), #[trigger] self.view()[j]),
        {
            if !other.contains(&self.items[i]) {
                assert(!has_item(other.view(), self.view()[i as int]));
                return false;
            }
        }
        true
    }
}

impl Clone for SortedBySet {
    fn clone(&self) -> (r: Self)
        ensures
            r.comparator.view() == self.comparator.view(),
            r.view() == self.view(),
    {
        SortedBySet { comparator: value_copy(&self.comparator), items: values_copy(&self.items) }
    }
}

impl PartialEq for SortedBySet {
    fn eq(&self, other: &Self) -> (r: bool) {
        self.equals(other)
    }
}

impl vstd::std_specs::cmp::PartialEqSpecImpl for SortedBySet {
    open spec fn obeys_eq_spec() -> bool {
        true
    }

    open spec fn eq_spec(&self, other: &Self) -> bool {
        self.view().len() == other.view().len() && forall|i: int|
            0 <= i < self.view().len() ==> has_item(other.view(), #[trigger] self.view()[i])
    }
}

} // verus!
