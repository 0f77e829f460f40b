//! An immutable hash set that preserves insertion order when iterated.
//!
//! It rests on the insertion-ordered map: an element is a key, bound to nil.

use vstd::prelude::*;
use crate::hash_map::{distinct_keys, entry_value, key_position, without_key};
use crate::hash_map::{law_equal_bindings_symmetric, law_lookup_after_removing, lemma_key_position};
use crate::hash_map::PersistentHashMap;
use crate::value::{law_same_transitive, same, vals, Val};
use crate::value::{value_copy, Value};

verus! {

/// The position of the element that equals `v`.
pub open spec fn item_position(items: Seq<Val>, v: Val) -> Option<int>
    decreases items.len(),
{
    if items.len() == 0 {
        None
    } else if same(items.last(), v) {
        Some(items.len() - 1)
    } else {
        item_position(items.drop_last(), v)
    }
}

/// No two elements are equal.
pub open spec fn distinct_items(items: Seq<Val>) -> bool {
    forall|i: int, j: int|
        0 <= i < j < items.len() ==> !same(#[trigger] items[i], #[trigger] items[j])
}

/// The elements with `v` added last, unless an equal one is there.
pub open spec fn with_item(items: Seq<Val>, v: Val) -> Seq<Val> {
    if item_position(items, v) is Some {
        items
    } else {
        items.push(v)
    }
}

/// The elements with those of `more` added one after the other.
pub open spec fn with_items(items: Seq<Val>, more: Seq<Val>) -> Seq<Val>
    decreases more.len(),
{
    if more.len() == 0 {
        items
    } else {
        with_item(with_items(items, more.drop_last()), more.last())
    }
}

/// The elements without the one that equals `v`.
pub open spec fn without_item(items: Seq<Val>, v: Val) -> Seq<Val> {
    match item_position(items, v) {
        Some(i) => items.remove(i),
        None => items,
    }
}

/// As many elements, each equal to one of the other set.
pub open spec fn equal_members(a: Seq<Val>, b: Seq<Val>) -> bool {
    &&& a.len() == b.len()
    &&& forall|i: int| 0 <= i < a.len() ==> item_position(b, #[trigger] a[i]) is Some
}

/// Each element as a key bound to nil.
pub open spec fn as_entries(items: Seq<Val>) -> Seq<(Val, Val)> {
    Seq::new(items.len(), |i: int| (items[i], Val::Nil))
}

/// The position of an element is that of its entry.
pub proof fn lemma_item_position(items: Seq<Val>, v: Val)
    ensures
        item_position(items, v) == key_position(as_entries(items), v),
        item_position(items, v) matches Some(i) ==> 0 <= i < items.len() && same(items[i], v),
        item_position(items, v) is None ==> forall|i: int|
            0 <= i < items.len() ==> !same(#[trigger] items[i], v),
    decreases items.len(),
{
    if items.len() > 0 {
        lemma_item_position(items.drop_last(), v);
        assert(as_entries(items).drop_last() =~= as_entries(items.drop_last()));
    }
    lemma_key_position(as_entries(items), v);
    if item_position(items, v) is None {
        assert forall|i: int| 0 <= i < items.len() implies !same(#[trigger] items[i], v) by {
            assert(as_entries(items)[i].0 == items[i]);
        }
    }
}

/// After adding `v`, the set holds what it held, and `v`.
pub proof fn law_member_after_adding(items: Seq<Val>, v: Val, other: Val)
    ensures
        item_position(with_item(items, v), other) is Some <==> item_position(items, other) is Some
            || same(v, other),
{
    let after = with_item(items, v);
    lemma_item_position(items, v);
    lemma_item_position(items, other);
    lemma_item_position(after, other);
    if item_position(items, v) is Some {
        let i = item_position(items, v)->0;
        if same(v, other) {
            law_same_transitive(items[i], v, other);
        }
    } else {
        assert(after[items.len() as int] == v);
        if item_position(items, other) is Some {
            let i = item_position(items, other)->0;
            assert(after[i] == items[i]);
        }
        if item_position(after, other) is Some {
            let i = item_position(after, other)->0;
            if i < items.len() {
                assert(after[i] == items[i]);
            }
        }
    }
}

/// Adding keeps the elements distinct.
pub proof fn law_adding_keeps_items_distinct(items: Seq<Val>, v: Val)
    requires
        distinct_items(items),
    ensures
        distinct_items(with_item(items, v)),
{
    lemma_item_position(items, v);
    let after = with_item(items, v);
    assert forall|i: int, j: int| 0 <= i < j < after.len() implies !same(
        #[trigger] after[i],
        #[trigger] after[j],
    ) by {
        assert(after[i] == items[i]);
    }
}

/// After removing `v`, the set holds what it held but for `v`.
pub proof fn law_member_after_removing(items: Seq<Val>, v: Val, other: Val)
    requires
        distinct_items(items),
    ensures
        item_position(without_item(items, v), other) is Some <==> item_position(items, other) is Some
            && !same(v, other),
{
    let entries = as_entries(items);
    assert forall|i: int, j: int| 0 <= i < j < entries.len() implies !same(
        (#[trigger] entries[i]).0,
        (#[trigger] entries[j]).0,
    ) by {
        assert(!same(items[i], items[j]));
    }
    lemma_item_position(items, v);
    lemma_item_position(items, other);
    lemma_item_position(without_item(items, v), other);
    assert(as_entries(without_item(items, v)) =~= without_key(entries, v));
    law_lookup_after_removing(entries, v, other);
}

/// Where elements are distinct, equality of sets goes both ways.
pub proof fn law_equal_members_symmetric(a: Seq<Val>, b: Seq<Val>)
    requires
        distinct_items(a),
        distinct_items(b),
        equal_members(a, b),
    ensures
        equal_members(b, a),
{
    let x = as_entries(a);
    let y = as_entries(b);
    assert forall|i: int, j: int| 0 <= i < j < x.len() implies !same(
        (#[trigger] x[i]).0,
        (#[trigger] x[j]).0,
    ) by {
        assert(!same(a[i], a[j]));
    }
    assert forall|i: int, j: int| 0 <= i < j < y.len() implies !same(
        (#[trigger] y[i]).0,
        (#[trigger] y[j]).0,
    ) by {
        assert(!same(b[i], b[j]));
    }
    assert forall|i: int| 0 <= i < x.len() implies (entry_value(
        y,
        (#[trigger] x[i]).0,
    ) matches Some(v) && same(v, x[i].1)) by {
        assert(item_position(b, a[i]) is Some);
        lemma_item_position(b, a[i]);
    }
    law_equal_bindings_symmetric(x, y);
    assert forall|j: int| 0 <= j < b.len() implies item_position(a, #[trigger] b[j]) is Some by {
        lemma_item_position(a, b[j]);
        assert(y[j].0 == b[j]);
    }
}

/// An immutable hash set that preserves insertion order.
#[derive(Debug)]
pub struct PersistentHashSet {
    map: PersistentHashMap,
}

impl PersistentHashSet {
    /// The elements in insertion order.
    pub closed spec fn view(&self) -> Seq<Val> {
        self.map.view().map_values(|e: (Val, Val)| e.0)
    }

    /// How many sequence numbers were given out.
    pub closed spec fn issued(&self) -> nat {
        self.map.issued()
    }

    #[verifier::type_invariant]
    spec fn sound(&self) -> bool {
        &&& distinct_keys(self.map.view())
        &&& forall|i: int| 0 <= i < self.map.view().len() ==> (#[trigger] self.map.view()[i]).1 is Nil
    }

    proof fn lemma_sound(&self)
        requires
            self.sound(),
        ensures
            self.map.view() == as_entries(self.view()),
            distinct_items(self.view()),
    {
        assert(self.map.view() =~= as_entries(self.view()));
        assert forall|i: int, j: int| 0 <= i < j < self.view().len() implies !same(
            #[trigger] self.view()[i],
            #[trigger] self.view()[j],
        ) by {
            assert(!same(self.map.view()[i].0, self.map.view()[j].0));
        }
    }

    pub fn empty() -> (r: Self)
        ensures
            r.view().len() == 0,
            r.issued() == 0,
            distinct_items(r.view()),
    {
        PersistentHashSet { map: PersistentHashMap::empty() }
    }

    pub fn count(&self) -> (r: usize)
        ensures
            r == self.view().len(),
    {
        self.map.count()
    }

    pub fn is_empty(&self) -> (r: bool)
        ensures
            r == (self.view().len() == 0),
    {
        self.map.is_empty()
    }

    pub fn contains(&self, val: &Value) -> (r: bool)
        ensures
            r == item_position(self.view(), val.view()) is Some,
    {
        proof {
            use_type_invariant(self);
            self.lemma_sound();
            lemma_item_position(self.view(), val.view());
        }
        self.map.contains_key(val)
    }

    /// A new set with `val` added. If `val` is already present, its original insertion position
    /// is kept.
    pub fn conj(&self, val: Value) -> (r: Self)
        requires
            self.issued() < u64::MAX,
        ensures
            r.view() == with_item(self.view(), val.view()),
            distinct_items(r.view()),
            self.issued() <= r.issued() <= self.issued() + 1,
    {
        proof {
            use_type_invariant(self);
            self.lemma_sound();
            lemma_item_position(self.view(), val.view());
        }
        if self.contains(&val) {
            return self.clone();
        }
        let ghost v = val.view();
        let map = self.map.assoc(val, Value::Nil);
        assert(map.view() == self.map.view().push((v, Val::Nil)));
        let r = PersistentHashSet { map };
        proof {
            r.lemma_sound();
            assert(r.view() =~= self.view().push(v));
        }
        r
    }

    /// Add `val` in place.
    pub fn conj_mut(&mut self, val: Value)
        requires
            old(self).issued() < u64::MAX,
        ensures
            final(self).view() == with_item(old(self).view(), val.view()),
            distinct_items(final(self).view()),
            old(self).issued() <= final(self).issued() <= old(self).issued() + 1,
    {
        *self = self.conj(val);
    }

    /// A new set with `val` removed.
    pub fn disj(&self, val: &Value) -> (r: Self)
        ensures
            r.view() == without_item(self.view(), val.view()),
            distinct_items(r.view()),
            r.issued() == self.issued(),
    {
        proof {
            use_type_invariant(self);
            self.lemma_sound();
            lemma_item_position(self.view(), val.view());
            lemma_key_position(self.map.view(), val.view());
        }
        let map = self.map.dissoc(val);
        proof {
            match key_position(self.map.view(), val.view()) {
                Some(i) => {
                    assert forall|j: int| 0 <= j < map.view().len() implies (
                    #[trigger] map.view()[j]).1 is Nil by {
                        let k = if j < i { j } else { j + 1 };
                        assert(map.view()[j] == self.map.view()[k]);
                    }
                },
                None => {},
            }
        }
        let r = PersistentHashSet { map };
        proof {
            r.lemma_sound();
            assert(r.view() =~= without_item(self.view(), val.view()));
        }
        r
    }

    /// All elements in insertion order.
    pub fn iter(&self) -> (r: Vec<&Value>)
        ensures
            r@.len() == self.view().len(),
            forall|i: int| 0 <= i < r@.len() ==> (#[trigger] r@[i]).view() == self.view()[i],
    {
        let entries = self.map.iter();
        let mut r: Vec<&Value> = Vec::new();
        for i in 0..entries.len()
            invariant
                r@.len() == i,
                entries@.len() == self.view().len(),
                forall|j: int|
                    0 <= j < entries@.len() ==> (#[trigger] entries@[j]).0.view()
                        == self.view()[j],
                forall|j: int| 0 <= j < i ==> (#[trigger] r@[j]).view() == self.view()[j],
        {
            r.push(entries[i].0);
        }
        r
    }

    /// Build from values, in the given order.
    pub fn from_iter(values: Vec<Value>) -> (r: Self)
        ensures
            r.view() == with_items(Seq::empty(), vals(values@)),
            distinct_items(r.view()),
            r.issued() <= values@.len(),
    {
        let mut r = PersistentHashSet::empty();
        proof {
            assert(r.view() =~= Seq::empty());
            assert(vals(values@).take(0) =~= Seq::empty());
        }
        for i in 0..values.len()
            invariant
                r.view() == with_items(Seq::empty(), vals(values@).take(i as int)),
                distinct_items(r.view()),
                r.issued() <= i,
        {
            proof {
                let all = vals(values@);
                let seen = all.take(i + 1);
                assert(seen.drop_last() =~= all.take(i as int));
                assert(seen.last() == all[i as int]);
            }
            r.conj_mut(value_copy(&values[i]));
        }
        assert(vals(values@).take(values@.len() as int) =~= vals(values@));
        r
    }

    /// Whether both sets hold equal elements, in whatever order.
    pub fn equals(&self, other: &Self) -> (r: bool)
        ensures
            r == equal_members(self.view(), other.view()),
    {
        if self.count() != other.count() {
            return false;
        }
        let items = self.iter();
        for i in 0..items.len()
            invariant
                items@.len() == self.view().len() == other.view().len(),
                forall|j: int|
                    0 <= j < items@.len() ==> (#[trigger] items@[j]).view() == self.view()[j],
                forall|j: int|
                    0 <= j < i ==> item_position(other.view(), #[trigger] self.view()[j]) is Some,
        {
            if !other.contains(items[i]) {
                assert(item_position(other.view(), self.view()[i as int]) is None);
                return false;
            }
        }
        true
    }
}

impl Clone for PersistentHashSet {
    fn clone(&self) -> (r: Self)
        ensures
            r.view() == self.view(),
            r.issued() == self.issued(),
            distinct_items(r.view()),
    {
        proof {
            use_type_invariant(self);
            self.lemma_sound();
        }
        PersistentHashSet { map: self.map.clone() }
    }
}

impl PartialEq for PersistentHashSet {
    fn eq(&self, other: &Self) -> (r: bool) {
        self.equals(other)
    }
}

impl vstd::std_specs::cmp::PartialEqSpecImpl for PersistentHashSet {
    open spec fn obeys_eq_spec() -> bool {
        true
    }

    open spec fn eq_spec(&self, other: &Self) -> bool {
        equal_members(self.view(), other.view())
    }
}

} // verus!
