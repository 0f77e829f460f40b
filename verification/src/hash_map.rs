//! An immutable hash map that preserves insertion order when iterated.
//!
//! Lookups go through a hash trie from a key's bucket to insertion sequence numbers; a sequence
//! number then indexes a red-black tree that holds the entries in insertion order.
//! Re-associating an existing key keeps its original position, so iteration order is the order in
//! which keys were first written.

use vstd::prelude::*;
use crate::trees::{ascending, filed, filed_rows, row_numbered, rows_with, rows_without};
use crate::trees::{
    index_clone, index_get, index_insert, index_new, index_remove, tree_clone, tree_entries,
    tree_get, tree_insert, tree_new, tree_remove, tree_size, EntryTree, SeqIndex,
};
use crate::value::{bucket, equal_entries, has_left, has_right, in_any_order};
use crate::value::{pair_vals, same, vals, Val};
use crate::value::{bucket_of, equal, value_copy, Value};
use crate::value::{
    law_equal_values_share_a_bucket, law_same_symmetric, law_same_transitive,
};

verus! {

/// The position of the entry whose key equals `key`.
pub open spec fn key_position(entries: Seq<(Val, Val)>, key: Val) -> Option<int>
    decreases entries.len(),
{
    if entries.len() == 0 {
        None
    } else if same(entries.last().0, key) {
        Some(entries.len() - 1)
    } else {
        key_position(entries.drop_last(), key)
    }
}

/// No two entries have equal keys.
pub open spec fn distinct_keys(entries: Seq<(Val, Val)>) -> bool {
    forall|i: int, j: int|
        0 <= i < j < entries.len() ==> !same((#[trigger] entries[i]).0, (#[trigger] entries[j]).0)
}

/// The value under `key`.
pub open spec fn entry_value(entries: Seq<(Val, Val)>, key: Val) -> Option<Val> {
    match key_position(entries, key) {
        Some(i) => Some(entries[i].1),
        None => None,
    }
}

/// The entries with `key` bound to `value`: an equal key keeps its position, a new one comes last.
pub open spec fn with_entry(entries: Seq<(Val, Val)>, key: Val, value: Val) -> Seq<(Val, Val)> {
    match key_position(entries, key) {
        Some(i) => entries.update(i, (key, value)),
        None => entries.push((key, value)),
    }
}

/// The entries with those of `more` bound one after the other.
pub open spec fn with_entries(entries: Seq<(Val, Val)>, more: Seq<(Val, Val)>) -> Seq<(Val, Val)>
    decreases more.len(),
{
    if more.len() == 0 {
        entries
    } else {
        with_entry(with_entries(entries, more.drop_last()), more.last().0, more.last().1)
    }
}

/// The entries without `key`.
pub open spec fn without_key(entries: Seq<(Val, Val)>, key: Val) -> Seq<(Val, Val)> {
    match key_position(entries, key) {
        Some(i) => entries.remove(i),
        None => entries,
    }
}

/// As many entries, and under each key of the one an equal value in the other.
pub open spec fn equal_bindings(a: Seq<(Val, Val)>, b: Seq<(Val, Val)>) -> bool {
    &&& a.len() == b.len()
    &&& forall|i: int|
        0 <= i < a.len() ==> (entry_value(b, (#[trigger] a[i]).0) matches Some(v) && same(v, a[i].1))
}

/// The position found is that of an entry with an equal key, the last such.
pub proof fn lemma_key_position(entries: Seq<(Val, Val)>, key: Val)
    ensures
        key_position(entries, key) matches Some(i) ==> 0 <= i < entries.len() && same(
            entries[i].0,
            key,
        ),
        key_position(entries, key) is None ==> forall|i: int|
            0 <= i < entries.len() ==> !same((#[trigger] entries[i]).0, key),
    decreases entries.len(),
{
    if entries.len() > 0 && !same(entries.last().0, key) {
        let rest = entries.drop_last();
        lemma_key_position(rest, key);
        if key_position(rest, key) is None {
            assert forall|i: int| 0 <= i < entries.len() implies !same(
                (#[trigger] entries[i]).0,
                key,
            ) by {
                if i < rest.len() {
                    assert(rest[i] == entries[i]);
                }
            }
        }
    }
}

/// Where keys are distinct, the entry with an equal key is the one found.
pub proof fn lemma_position_of(entries: Seq<(Val, Val)>, key: Val, i: int)
    requires
        distinct_keys(entries),
        0 <= i < entries.len(),
        same(entries[i].0, key),
    ensures
        key_position(entries, key) == Some(i),
{
    lemma_key_position(entries, key);
    let j = key_position(entries, key)->0;
    if i != j {
        law_same_symmetric(entries[j].0, key);
        law_same_transitive(entries[i].0, key, entries[j].0);
        law_same_symmetric(entries[i].0, entries[j].0);
    }
}

/// Binding a key keeps the keys distinct.
pub proof fn law_binding_keeps_keys_distinct(entries: Seq<(Val, Val)>, key: Val, value: Val)
    requires
        distinct_keys(entries),
    ensures
        distinct_keys(with_entry(entries, key, value)),
{
    lemma_key_position(entries, key);
    let after = with_entry(entries, key, value);
    assert forall|i: int, j: int| 0 <= i < j < after.len() implies !same(
        (#[trigger] after[i]).0,
        (#[trigger] after[j]).0,
    ) by {
        match key_position(entries, key) {
            Some(p) => {
                if i == p {
                    assert(after[j] == entries[j]);
                    if same(key, entries[j].0) {
                        law_same_transitive(entries[p].0, key, entries[j].0);
                    }
                } else if j == p {
                    assert(after[i] == entries[i]);
                    if same(entries[i].0, key) {
                        law_same_symmetric(entries[p].0, key);
                        law_same_transitive(entries[i].0, key, entries[p].0);
                    }
                } else {
                    assert(after[i] == entries[i] && after[j] == entries[j]);
                }
            },
            None => {
                assert(after[i] == entries[i]);
            },
        }
    }
}

/// Removing a key keeps the keys distinct.
pub proof fn law_removing_keeps_keys_distinct(entries: Seq<(Val, Val)>, key: Val)
    requires
        distinct_keys(entries),
    ensures
        distinct_keys(without_key(entries, key)),
{
    lemma_key_position(entries, key);
    let after = without_key(entries, key);
    if key_position(entries, key) is Some {
        let p = key_position(entries, key)->0;
        assert forall|i: int, j: int| 0 <= i < j < after.len() implies !same(
            (#[trigger] after[i]).0,
            (#[trigger] after[j]).0,
        ) by {
            let a = if i < p { i } else { i + 1 };
            let b = if j < p { j } else { j + 1 };
            assert(after[i] == entries[a] && after[j] == entries[b]);
        }
    }
}

/// What was bound is read back: the value under the bound key, any other key as before.
pub proof fn law_lookup_after_binding(
    entries: Seq<(Val, Val)>,
    key: Val,
    value: Val,
    other: Val,
)
    requires
        distinct_keys(entries),
    ensures
        entry_value(with_entry(entries, key, value), other) == if same(key, other) {
            Some(value)
        } else {
            entry_value(entries, other)
        },
{
    law_binding_keeps_keys_distinct(entries, key, value);
    lemma_key_position(entries, key);
    lemma_key_position(entries, other);
    let after = with_entry(entries, key, value);
    lemma_key_position(after, other);
    if same(key, other) {
        let p = match key_position(entries, key) {
            Some(i) => i,
            None => entries.len() as int,
        };
        assert(after[p] == (key, value));
        lemma_position_of(after, other, p);
    } else {
        match key_position(entries, other) {
            Some(i) => {
                if key_position(entries, key) == Some(i) {
                    law_same_symmetric(entries[i].0, key);
                    law_same_transitive(key, entries[i].0, other);
                }
                assert(after[i] == entries[i]);
                lemma_position_of(after, other, i);
            },
            None => {
                if key_position(after, other) is Some {
                    let j = key_position(after, other)->0;
                    if j < entries.len() {
                        assert(after[j] == entries[j] || after[j].0 == key);
                    }
                }
            },
        }
    }
}

/// After merging, a key reads what the right-hand side binds it to, else what the left-hand side
/// does.
pub proof fn law_lookup_after_merging(
    entries: Seq<(Val, Val)>,
    more: Seq<(Val, Val)>,
    key: Val,
)
    requires
        distinct_keys(entries),
    ensures
        distinct_keys(with_entries(entries, more)),
        entry_value(with_entries(entries, more), key) == match entry_value(more, key) {
            Some(v) => Some(v),
            None => entry_value(entries, key),
        },
    decreases more.len(),
{
    if more.len() > 0 {
        let rest = more.drop_last();
        let (k, v) = more.last();
        law_lookup_after_merging(entries, rest, key);
        law_binding_keeps_keys_distinct(with_entries(entries, rest), k, v);
        law_lookup_after_binding(with_entries(entries, rest), k, v, key);
        lemma_key_position(rest, key);
        if !same(k, key) {
            if let Some(i) = key_position(rest, key) {
                assert(rest[i] == more[i]);
            }
        }
    }
}

/// Binding a key keeps the position of every key before it, and a new key comes last.
pub proof fn law_binding_keeps_positions(entries: Seq<(Val, Val)>, key: Val, value: Val, i: int)
    requires
        0 <= i < entries.len(),
    ensures
        i < with_entry(entries, key, value).len(),
        key_position(entries, key) != Some(i) ==> with_entry(entries, key, value)[i] == entries[i],
        key_position(entries, key) is None ==> with_entry(entries, key, value).last() == (
            key,
            value,
        ),
{
    lemma_key_position(entries, key);
}

/// A removed key is gone, and every other key reads as before.
pub proof fn law_lookup_after_removing(entries: Seq<(Val, Val)>, key: Val, other: Val)
    requires
        distinct_keys(entries),
    ensures
        entry_value(without_key(entries, key), other) == if same(key, other) {
            None
        } else {
            entry_value(entries, other)
        },
{
    law_removing_keeps_keys_distinct(entries, key);
    let after = without_key(entries, key);
    lemma_key_position(entries, key);
    lemma_key_position(entries, other);
    lemma_key_position(after, other);
    match key_position(entries, key) {
        Some(p) => {
            if key_position(after, other) is Some {
                let j = key_position(after, other)->0;
                let b = if j < p { j } else { j + 1 };
                assert(after[j] == entries[b]);
                lemma_position_of(entries, other, b);
                if same(key, other) {
                    law_same_symmetric(key, other);
                    law_same_transitive(entries[b].0, other, key);
                    lemma_position_of(entries, key, b);
                }
            } else if !same(key, other) && key_position(entries, other) is Some {
                let b = key_position(entries, other)->0;
                if b == p {
                    law_same_symmetric(entries[b].0, key);
                    law_same_transitive(key, entries[b].0, other);
                }
                let j = if b < p { b } else { b - 1 };
                assert(after[j] == entries[b]);
            }
        },
        None => {
            if same(key, other) && key_position(entries, other) is Some {
                let b = key_position(entries, other)->0;
                law_same_symmetric(key, other);
                law_same_transitive(entries[b].0, other, key);
            }
        },
    }
}

/// Where keys are distinct, as many bindings with equal ones in the other map make the maps equal
/// both ways.
pub proof fn law_equal_bindings_symmetric(a: Seq<(Val, Val)>, b: Seq<(Val, Val)>)
    requires
        distinct_keys(a),
        distinct_keys(b),
        equal_bindings(a, b),
    ensures
        equal_bindings(b, a),
    decreases a.len(),
{
    if a.len() > 0 {
        let last = a.last();
        assert(a[a.len() - 1] == last);
        lemma_key_position(b, last.0);
        let j = key_position(b, last.0)->0;
        let a2 = a.drop_last();
        let b2 = b.remove(j);
        assert forall|x: int, y: int| 0 <= x < y < a2.len() implies !same(
            (#[trigger] a2[x]).0,
            (#[trigger] a2[y]).0,
        ) by {
            assert(a2[x] == a[x] && a2[y] == a[y]);
        }
        assert(b2 == without_key(b, last.0));
        law_removing_keeps_keys_distinct(b, last.0);
        assert forall|i: int| 0 <= i < a2.len() implies (entry_value(
            b2,
            (#[trigger] a2[i]).0,
        ) matches Some(v) && same(v, a2[i].1)) by {
            assert(a2[i] == a[i]);
            law_lookup_after_removing(b, last.0, a[i].0);
            if same(last.0, a[i].0) {
                law_same_symmetric(last.0, a[i].0);
                assert(!same(a[i].0, a[a.len() - 1].0));
            }
        }
        law_equal_bindings_symmetric(a2, b2);
        assert forall|k: int| 0 <= k < b.len() implies (entry_value(
            a,
            (#[trigger] b[k]).0,
        ) matches Some(v) && same(v, b[k].1)) by {
            if k == j {
                law_same_symmetric(b[j].0, last.0);
                lemma_position_of(a, b[j].0, a.len() - 1);
                law_same_symmetric(b[j].1, last.1);
            } else {
                let k2 = if k < j { k } else { k - 1 };
                assert(b2[k2] == b[k]);
                lemma_key_position(a2, b[k].0);
                let i = key_position(a2, b[k].0)->0;
                assert(a2[i] == a[i]);
                lemma_position_of(a, b[k].0, i);
            }
        }
    }
}

/// The maps' equality is that of the map values with the same entries.
pub proof fn law_equal_bindings_are_equal_values(a: Seq<(Val, Val)>, b: Seq<(Val, Val)>)
    requires
        distinct_keys(a),
        distinct_keys(b),
    ensures
        equal_bindings(a, b) == same(Val::HashMap(a), Val::HashMap(b)),
{
    reveal(in_any_order);
    let rel = equal_entries(a, b);
    if equal_bindings(a, b) {
        law_equal_bindings_symmetric(a, b);
        assert forall|i: int| 0 <= i < a.len() implies #[trigger] has_right(rel, b.len(), i) by {
            lemma_key_position(b, a[i].0);
            let j = key_position(b, a[i].0)->0;
            law_same_symmetric(b[j].0, a[i].0);
            law_same_symmetric(b[j].1, a[i].1);
            assert(rel(i, j));
        }
        assert forall|j: int| 0 <= j < b.len() implies #[trigger] has_left(rel, a.len(), j) by {
            lemma_key_position(a, b[j].0);
            let i = key_position(a, b[j].0)->0;
            assert(rel(i, j));
        }
    }
    if same(Val::HashMap(a), Val::HashMap(b)) {
        assert(in_any_order(a.len(), b.len(), rel));
        assert forall|i: int| 0 <= i < a.len() implies (entry_value(
            b,
            (#[trigger] a[i]).0,
        ) matches Some(v) && same(v, a[i].1)) by {
            assert(has_right(rel, b.len(), i));
            let j = choose|j: int| 0 <= j < b.len() && #[trigger] rel(i, j);
            law_same_symmetric(a[i].0, b[j].0);
            law_same_symmetric(a[i].1, b[j].1);
            lemma_position_of(b, a[i].0, j);
        }
    }
}

// ---------------------------------------------------------------------------
// The map
// ---------------------------------------------------------------------------

/// What the entries of a row list hold.
pub open spec fn row_vals(rows: Seq<(u64, (Value, Value))>) -> Seq<(Val, Val)> {
    Seq::new(rows.len(), |i: int| (rows[i].1.0.view(), rows[i].1.1.view()))
}

/// An immutable hash map that preserves insertion order.
#[derive(Debug)]
pub struct PersistentHashMap {
    index: SeqIndex,
    order: EntryTree,
    next_seq: u64,
}

/// Row `i` is filed in the index under its key's bucket.
spec fn is_filed(index: SeqIndex, rows: Seq<(u64, (Value, Value))>, i: int) -> bool {
    let b = bucket(rows[i].1.0.view());
    filed(index).contains_key(b) && filed(index)[b].contains(rows[i].0)
}

impl PersistentHashMap {
    /// The entries in insertion order.
    pub closed spec fn view(&self) -> Seq<(Val, Val)> {
        row_vals(filed_rows(self.order))
    }

    /// How many sequence numbers were given out.
    pub closed spec fn issued(&self) -> nat {
        self.next_seq as nat
    }

    #[verifier::type_invariant]
    spec fn sound(&self) -> bool {
        let rows = filed_rows(self.order);
        &&& ascending(rows)
        &&& forall|i: int| 0 <= i < rows.len() ==> (#[trigger] rows[i]).0 < self.next_seq
        &&& distinct_keys(row_vals(rows))
        &&& forall|i: int| 0 <= i < rows.len() ==> #[trigger] is_filed(self.index, rows, i)
    }

    pub fn empty() -> (r: Self)
        ensures
            r.view().len() == 0,
            r.issued() == 0,
            distinct_keys(r.view()),
    {
        PersistentHashMap { index: index_new(), order: tree_new(), next_seq: 0 }
    }

    pub fn count(&self) -> (r: usize)
        ensures
            r == self.view().len(),
    {
        tree_size(&self.order)
    }

    pub fn is_empty(&self) -> (r: bool)
        ensures
            r == (self.view().len() == 0),
    {
        self.count() == 0
    }

    /// The sequence number of the entry whose key equals `key`.
    fn find(&self, key: &Value) -> (r: Option<u64>)
        ensures
            match r {
                Some(n) => exists|i: int|
                    0 <= i < filed_rows(self.order).len() && (#[trigger] filed_rows(self.order)[i]).0
                        == n && key_position(self.view(), key.view()) == Some(i),
                None => key_position(self.view(), key.view()) is None,
            },
    {
        proof {
            use_type_invariant(self);
        }
        let ghost rows = filed_rows(self.order);
        let b: u64 = bucket_of(key);
        let numbers = match index_get(&self.index, b) {
            Some(numbers) => numbers,
            None => {
                proof {
                    self.lemma_absent(key.view(), Seq::empty());
                }
                return None;
            },
        };
        let mut p: usize = 0;
        while p < numbers.len()
            invariant
                p <= numbers.len(),
                rows == filed_rows(self.order),
                ascending(rows),
                distinct_keys(row_vals(rows)),
                self.view() == row_vals(rows),
                forall|q: int|
                    0 <= q < p ==> (row_numbered(rows, #[trigger] numbers@[q]) matches Some(e)
                        ==> !same(e.0.view(), key.view())),
            decreases numbers.len() - p,
        {
            let n: u64 = numbers[p];
            match tree_get(&self.order, n) {
                Some(entry) => {
                    if equal(&entry.0, key) {
                        proof {
                            let i = lemma_row_found(rows, n);
                            lemma_position_of(row_vals(rows), key.view(), i);
                        }
                        return Some(n);
                    }
                },
                None => {},
            }
            p = p + 1;
        }
        proof {
            self.lemma_absent(key.view(), numbers@);
        }
        None
    }

    /// Where none of the numbers filed under the key's bucket leads to an equal key, no entry has
    /// one.
    proof fn lemma_absent(&self, key: Val, numbers: Seq<u64>)
        requires
            self.sound(),
            filed(self.index).contains_key(bucket(key)) ==> numbers == filed(self.index)[bucket(
                key,
            )],
            forall|q: int|
                0 <= q < numbers.len() ==> (row_numbered(
                    filed_rows(self.order),
                    #[trigger] numbers[q],
                ) matches Some(e) ==> !same(e.0.view(), key)),
        ensures
            key_position(self.view(), key) is None,
    {
        let rows = filed_rows(self.order);
        lemma_key_position(self.view(), key);
        if key_position(self.view(), key) is Some {
            let i = key_position(self.view(), key)->0;
            assert(is_filed(self.index, rows, i));
            law_equal_values_share_a_bucket(rows[i].1.0.view(), key);
            let q = choose|q: int| 0 <= q < numbers.len() && numbers[q] == rows[i].0;
            lemma_row_numbered(rows, i);
            assert(row_numbered(rows, numbers[q]) == Some(rows[i].1));
        }
    }

    /// Look up a key.
    pub fn get(&self, key: &Value) -> (r: Option<&Value>)
        ensures
            (match r {
                Some(v) => Some(v.view()),
                None => None,
            }) == entry_value(self.view(), key.view()),
    {
        proof {
            use_type_invariant(self);
        }
        match self.find(key) {
            Some(n) => {
                let ghost rows = filed_rows(self.order);
                proof {
                    let i = choose|i: int|
                        0 <= i < rows.len() && (#[trigger] rows[i]).0 == n && key_position(
                            self.view(),
                            key.view(),
                        ) == Some(i);
                    lemma_row_numbered(rows, i);
                }
                match tree_get(&self.order, n) {
                    Some(entry) => Some(&entry.1),
                    None => None,
                }
            },
            None => None,
        }
    }

    pub fn contains_key(&self, key: &Value) -> (r: bool)
        ensures
            r == key_position(self.view(), key.view()) is Some,
    {
        self.find(key).is_some()
    }

    /// A new map with `key` bound to `value`.
    ///
    /// Re-associating a key that is already present keeps its original insertion position; a
    /// brand-new key is appended at the end.
    pub fn assoc(&self, key: Value, value: Value) -> (r: Self)
        requires
            self.issued() < u64::MAX,
        ensures
            r.view() == with_entry(self.view(), key.view(), value.view()),
            distinct_keys(r.view()),
            self.issued() <= r.issued() <= self.issued() + 1,
    {
        proof {
            use_type_invariant(self);
            law_binding_keeps_keys_distinct(self.view(), key.view(), value.view());
        }
        let ghost rows = filed_rows(self.order);
        let ghost k = key.view();
        match self.find(&key) {
            Some(n) => {
                let ghost entry = (key, value);
                let index = index_clone(&self.index);
                let order = tree_insert(&self.order, n, (key, value));
                proof {
                    let i = choose|i: int|
                        0 <= i < rows.len() && (#[trigger] rows[i]).0 == n && key_position(
                            self.view(),
                            k,
                        ) == Some(i);
                    lemma_rows_replaced(rows, i, entry);
                    let after = filed_rows(order);
                    assert(after == rows.update(i, (n, entry)));
                    assert(row_vals(after) =~= with_entry(self.view(), k, entry.1.view()));
                    lemma_key_position(self.view(), k);
                    law_equal_values_share_a_bucket(rows[i].1.0.view(), k);
                    assert forall|j: int| 0 <= j < after.len() implies #[trigger] is_filed(
                        index,
                        after,
                        j,
                    ) by {
                        assert(is_filed(self.index, rows, j));
                    }
                    assert forall|j: int| 0 <= j < after.len() implies (#[trigger] after[j]).0
                        < self.next_seq by {
                        assert(rows[j].0 < self.next_seq);
                    }
                    assert forall|a: int, b: int| 0 <= a < b < after.len() implies (
                    #[trigger] after[a]).0 < (#[trigger] after[b]).0 by {
                        assert(rows[a].0 < rows[b].0);
                    }
                }
                PersistentHashMap { index, order, next_seq: self.next_seq }
            },
            None => {
                let ghost entry = (key, value);
                let n: u64 = self.next_seq;
                let b: u64 = bucket_of(&key);
                let mut numbers: Vec<u64> = match index_get(&self.index, b) {
                    Some(numbers) => numbers_copy(numbers),
                    None => Vec::new(),
                };
                let ghost before = numbers@;
                numbers.push(n);
                let index = index_insert(&self.index, b, numbers);
                let order = tree_insert(&self.order, n, (key, value));
                proof {
                    let after = filed_rows(order);
                    if rows.len() > 0 {
                        assert(rows[rows.len() - 1].0 < self.next_seq);
                    }
                    assert(after == rows.push((n, entry)));
                    assert(row_vals(after) =~= with_entry(self.view(), k, entry.1.view()));
                    assert forall|j: int| 0 <= j < after.len() implies #[trigger] is_filed(
                        index,
                        after,
                        j,
                    ) by {
                        if j < rows.len() {
                            assert(is_filed(self.index, rows, j));
                            assert(after[j] == rows[j]);
                            if bucket(rows[j].1.0.view()) == b {
                                let q = choose|q: int|
                                    0 <= q < before.len() && before[q] == rows[j].0;
                                assert(before.push(n)[q] == rows[j].0);
                            }
                        } else {
                            assert(before.push(n)[before.len() as int] == n);
                        }
                    }
                    assert forall|a: int, c: int| 0 <= a < c < after.len() implies (
                    #[trigger] after[a]).0 < (#[trigger] after[c]).0 by {
                        assert(after[a] == rows[a]);
                    }
                }
                PersistentHashMap { index, order, next_seq: n + 1 }
            },
        }
    }

    /// A new map without `key`.
    pub fn dissoc(&self, key: &Value) -> (r: Self)
        ensures
            r.view() == without_key(self.view(), key.view()),
            distinct_keys(r.view()),
            r.issued() == self.issued(),
    {
        proof {
            use_type_invariant(self);
            law_removing_keeps_keys_distinct(self.view(), key.view());
        }
        let ghost rows = filed_rows(self.order);
        match self.find(key) {
            Some(n) => {
                let ghost i = choose|i: int|
                    0 <= i < rows.len() && (#[trigger] rows[i]).0 == n && key_position(
                        self.view(),
                        key.view(),
                    ) == Some(i);
                proof {
                    lemma_key_position(self.view(), key.view());
                    law_equal_values_share_a_bucket(rows[i].1.0.view(), key.view());
                    assert(is_filed(self.index, rows, i));
                }
                let b: u64 = bucket_of(key);
                let kept: Vec<u64> = match index_get(&self.index, b) {
                    Some(numbers) => numbers_without(numbers, n),
                    None => Vec::new(),
                };
                let ghost left = kept@;
                let index = if kept.len() == 0 {
                    index_remove(&self.index, b)
                } else {
                    index_insert(&self.index, b, kept)
                };
                let order = tree_remove(&self.order, n);
                proof {
                    let after = filed_rows(order);
                    lemma_rows_removed(rows, i);
                    assert(after == rows.remove(i));
                    assert(row_vals(after) =~= without_key(self.view(), key.view()));
                    assert forall|j: int| 0 <= j < after.len() implies #[trigger] is_filed(
                        index,
                        after,
                        j,
                    ) by {
                        let a = if j < i { j } else { j + 1 };
                        assert(after[j] == rows[a]);
                        assert(is_filed(self.index, rows, a));
                        if bucket(rows[a].1.0.view()) == b {
                            assert(rows[a].0 != n) by {
                                assert(a < i ==> rows[a].0 < rows[i].0);
                                assert(i < a ==> rows[i].0 < rows[a].0);
                            }
                            assert(left.contains(rows[a].0));
                        }
                    }
                    assert forall|a: int, c: int| 0 <= a < c < after.len() implies (
                    #[trigger] after[a]).0 < (#[trigger] after[c]).0 by {
                        let a2 = if a < i { a } else { a + 1 };
                        let c2 = if c < i { c } else { c + 1 };
                        assert(after[a] == rows[a2] && after[c] == rows[c2]);
                    }
                    assert forall|j: int| 0 <= j < after.len() implies (#[trigger] after[j]).0
                        < self.next_seq by {
                        let a = if j < i { j } else { j + 1 };
                        assert(after[j] == rows[a]);
                    }
                }
                PersistentHashMap { index, order, next_seq: self.next_seq }
            },
            None => self.duplicate(),
        }
    }

    /// A map that holds the same.
    fn duplicate(&self) -> (r: Self)
        ensures
            r.view() == self.view(),
            r.issued() == self.issued(),
            distinct_keys(r.view()),
    {
        proof {
            use_type_invariant(self);
        }
        let index = index_clone(&self.index);
        let order = tree_clone(&self.order);
        proof {
            let rows = filed_rows(order);
            assert forall|j: int| 0 <= j < rows.len() implies #[trigger] is_filed(
                index,
                rows,
                j,
            ) by {
                assert(is_filed(self.index, filed_rows(self.order), j));
            }
        }
        PersistentHashMap { index, order, next_seq: self.next_seq }
    }

    /// All entries in insertion order.
    pub fn iter(&self) -> (r: Vec<(&Value, &Value)>)
        ensures
            r@.len() == self.view().len(),
            forall|i: int|
                0 <= i < r@.len() ==> (#[trigger] r@[i]).0.view() == self.view()[i].0
                    && r@[i].1.view() == self.view()[i].1,
    {
        let entries = tree_entries(&self.order);
        let mut r: Vec<(&Value, &Value)> = Vec::new();
        for i in 0..entries.len()
            invariant
                r@.len() == i,
                entries@.len() == self.view().len(),
                forall|j: int|
                    0 <= j < entries@.len() ==> (#[trigger] entries@[j]).0.view()
                        == self.view()[j].0 && entries@[j].1.view() == self.view()[j].1,
                forall|j: int|
                    0 <= j < i ==> (#[trigger] r@[j]).0.view() == self.view()[j].0
                        && r@[j].1.view() == self.view()[j].1,
        {
            let e = entries[i];
            r.push((&e.0, &e.1));
        }
        r
    }

    /// All keys, in insertion order.
    pub fn keys(&self) -> (r: Vec<Value>)
        ensures
            vals(r@) == self.view().map_values(|e: (Val, Val)| e.0),
    {
        let entries = self.iter();
        let mut r: Vec<Value> = Vec::new();
        for i in 0..entries.len()
            invariant
                r@.len() == i,
                entries@.len() == self.view().len(),
                forall|j: int|
                    0 <= j < entries@.len() ==> (#[trigger] entries@[j]).0.view()
                        == self.view()[j].0,
                forall|j: int| 0 <= j < i ==> (#[trigger] r@[j]).view() == self.view()[j].0,
        {
            r.push(value_copy(entries[i].0));
        }
        assert(vals(r@) =~= self.view().map_values(|e: (Val, Val)| e.0));
        r
    }

    /// All values, in insertion order.
    pub fn vals(&self) -> (r: Vec<Value>)
        ensures
            vals(r@) == self.view().map_values(|e: (Val, Val)| e.1),
    {
        let entries = self.iter();
        let mut r: Vec<Value> = Vec::new();
        for i in 0..entries.len()
            invariant
                r@.len() == i,
                entries@.len() == self.view().len(),
                forall|j: int|
                    0 <= j < entries@.len() ==> (#[trigger] entries@[j]).1.view()
                        == self.view()[j].1,
                forall|j: int| 0 <= j < i ==> (#[trigger] r@[j]).view() == self.view()[j].1,
        {
            r.push(value_copy(entries[i].1));
        }
        assert(vals(r@) =~= self.view().map_values(|e: (Val, Val)| e.1));
        r
    }

    /// Merge two maps; the right-hand side wins on equal keys.
    pub fn merge(&self, other: &Self) -> (r: Self)
        requires
            self.issued() + other.view().len() <= u64::MAX,
        ensures
            r.view() == with_entries(self.view(), other.view()),
            distinct_keys(r.view()),
            r.issued() <= self.issued() + other.view().len(),
    {
        let entries = other.iter();
        let mut r = self.duplicate();
        for i in 0..entries.len()
            invariant
                self.issued() + other.view().len() <= u64::MAX,
                entries@.len() == other.view().len(),
                forall|j: int|
                    0 <= j < entries@.len() ==> (#[trigger] entries@[j]).0.view()
                        == other.view()[j].0 && entries@[j].1.view() == other.view()[j].1,
                r.view() == with_entries(self.view(), other.view().take(i as int)),
                distinct_keys(r.view()),
                r.issued() <= self.issued() + i,
        {
            proof {
                let seen = other.view().take(i + 1);
                assert(seen.drop_last() =~= other.view().take(i as int));
                assert(seen.last() == other.view()[i as int]);
            }
            r = r.assoc(value_copy(entries[i].0), value_copy(entries[i].1));
        }
        assert(other.view().take(other.view().len() as int) =~= other.view());
        r
    }

    /// Build from pairs, in the given order.
    pub fn from_pairs(pairs: Vec<(Value, Value)>) -> (r: Self)
        ensures
            r.view() == with_entries(Seq::empty(), pair_vals(pairs@)),
            r.issued() <= pairs@.len(),
            distinct_keys(r.view()),
    {
        let mut r = PersistentHashMap::empty();
        proof {
            assert(r.view() =~= Seq::empty());
            assert(pair_vals(pairs@).take(0) =~= Seq::empty());
        }
        for i in 0..pairs.len()
            invariant
                r.view() == with_entries(Seq::empty(), pair_vals(pairs@).take(i as int)),
                distinct_keys(r.view()),
                r.issued() <= i,
        {
            proof {
                let all = pair_vals(pairs@);
                let seen = all.take(i + 1);
                assert(seen.drop_last() =~= all.take(i as int));
                assert(seen.last() == all[i as int]);
            }
            r = r.assoc(value_copy(&pairs[i].0), value_copy(&pairs[i].1));
        }
        assert(pair_vals(pairs@).take(pairs@.len() as int) =~= pair_vals(pairs@));
        r
    }

    /// Build from the entries of a plain hash trie, in the order in which it yields them.
    pub fn new(map: Vec<(Value, Value)>) -> (r: Self)
        ensures
            r.view() == with_entries(Seq::empty(), pair_vals(map@)),
            distinct_keys(r.view()),
            r.issued() <= map@.len(),
    {
        PersistentHashMap::from_pairs(map)
    }

    /// Whether both maps bind equal keys to equal values, in whatever order.
    pub fn equals(&self, other: &Self) -> (r: bool)
        ensures
            r == equal_bindings(self.view(), other.view()),
    {
        if self.count() != other.count() {
            return false;
        }
        let entries = self.iter();
        for i in 0..entries.len()
            invariant
                entries@.len() == self.view().len() == other.view().len(),
                forall|j: int|
                    0 <= j < entries@.len() ==> (#[trigger] entries@[j]).0.view()
                        == self.view()[j].0 && entries@[j].1.view() == self.view()[j].1,
                forall|j: int|
                    0 <= j < i ==> (entry_value(other.view(), (#[trigger] self.view()[j]).0) matches Some(
                        v,
                    ) && same(v, self.view()[j].1)),
        {
            let found = match other.get(entries[i].0) {
                Some(v) => equal(v, entries[i].1),
                None => false,
            };
            if !found {
                assert(self.view()[i as int].0 == entries@[i as int].0.view());
                return false;
            }
        }
        true
    }
}

impl Clone for PersistentHashMap {
    fn clone(&self) -> (r: Self)
        ensures
            r.view() == self.view(),
            r.issued() == self.issued(),
            distinct_keys(r.view()),
    {
        self.duplicate()
    }
}

impl PartialEq for PersistentHashMap {
    fn eq(&self, other: &Self) -> (r: bool) {
        self.equals(other)
    }
}

impl vstd::std_specs::cmp::PartialEqSpecImpl for PersistentHashMap {
    open spec fn obeys_eq_spec() -> bool {
        true
    }

    open spec fn eq_spec(&self, other: &Self) -> bool {
        equal_bindings(self.view(), other.view())
    }
}

fn numbers_copy(numbers: &Vec<u64>) -> (r: Vec<u64>)
    ensures
        r@ == numbers@,
{
    let mut r: Vec<u64> = Vec::new();
    for i in 0..numbers.len()
        invariant
            r@ == numbers@.take(i as int),
    {
        r.push(numbers[i]);
        assert(numbers@.take(i + 1) =~= numbers@.take(i as int).push(numbers@[i as int]));
    }
    assert(numbers@.take(numbers@.len() as int) =~= numbers@);
    r
}

fn numbers_without(numbers: &Vec<u64>, n: u64) -> (r: Vec<u64>)
    ensures
        forall|m: u64| m != n && numbers@.contains(m) ==> #[trigger] r@.contains(m),
{
    let mut r: Vec<u64> = Vec::new();
    for i in 0..numbers.len()
        invariant
            forall|q: int|
                0 <= q < i && numbers@[q] != n ==> r@.contains(#[trigger] numbers@[q]),
    {
        let m: u64 = numbers[i];
        let ghost before = r@;
        if m != n {
            r.push(m);
            assert(r@[r@.len() - 1] == m);
        }
        proof {
            assert forall|q: int| 0 <= q < i + 1 && numbers@[q] != n implies r@.contains(
                #[trigger] numbers@[q],
            ) by {
                if q < i {
                    let w = choose|w: int| 0 <= w < before.len() && before[w] == numbers@[q];
                    assert(r@[w] == numbers@[q]);
                }
            }
        }
    }
    r
}

/// In an ascending list, the row at `i` is the one its number leads to.
proof fn lemma_row_numbered(rows: Seq<(u64, (Value, Value))>, i: int)
    requires
        ascending(rows),
        0 <= i < rows.len(),
    ensures
        row_numbered(rows, rows[i].0) == Some(rows[i].1),
    decreases rows.len(),
{
    if i < rows.len() - 1 {
        assert(rows[i].0 < rows[rows.len() - 1].0);
        let rest = rows.drop_last();
        assert(rest[i] == rows[i]);
        assert forall|a: int, b: int| 0 <= a < b < rest.len() implies (#[trigger] rest[a]).0 < (
        #[trigger] rest[b]).0 by {
            assert(rest[a] == rows[a] && rest[b] == rows[b]);
        }
        lemma_row_numbered(rest, i);
    }
}

/// The row that a number leads to.
proof fn lemma_row_found(rows: Seq<(u64, (Value, Value))>, n: u64) -> (i: int)
    requires
        row_numbered(rows, n) is Some,
    ensures
        0 <= i < rows.len(),
        rows[i].0 == n,
        row_numbered(rows, n) == Some(rows[i].1),
    decreases rows.len(),
{
    if rows.last().0 == n {
        rows.len() - 1
    } else {
        let i = lemma_row_found(rows.drop_last(), n);
        assert(rows.drop_last()[i] == rows[i]);
        i
    }
}

/// Filing an entry under the number of the row at `i` replaces that row.
proof fn lemma_rows_replaced(rows: Seq<(u64, (Value, Value))>, i: int, entry: (Value, Value))
    requires
        ascending(rows),
        0 <= i < rows.len(),
    ensures
        rows_with(rows, rows[i].0, entry) == rows.update(i, (rows[i].0, entry)),
    decreases rows.len(),
{
    let n = rows[i].0;
    if i == rows.len() - 1 {
        assert(rows.drop_last().push((n, entry)) =~= rows.update(i, (n, entry)));
    } else {
        assert(rows[i].0 < rows[rows.len() - 1].0);
        let rest = rows.drop_last();
        assert(rest[i] == rows[i]);
        assert forall|a: int, b: int| 0 <= a < b < rest.len() implies (#[trigger] rest[a]).0 < (
        #[trigger] rest[b]).0 by {
            assert(rest[a] == rows[a] && rest[b] == rows[b]);
        }
        lemma_rows_replaced(rest, i, entry);
        assert(rest.update(i, (n, entry)).push(rows.last()) =~= rows.update(i, (n, entry)));
    }
}

/// Removing the number of the row at `i` removes that row.
proof fn lemma_rows_removed(rows: Seq<(u64, (Value, Value))>, i: int)
    requires
        ascending(rows),
        0 <= i < rows.len(),
    ensures
        rows_without(rows, rows[i].0) == rows.remove(i),
    decreases rows.len(),
{
    if i == rows.len() - 1 {
        assert(rows.drop_last() =~= rows.remove(i));
    } else {
        assert(rows[i].0 < rows[rows.len() - 1].0);
        let rest = rows.drop_last();
        assert(rest[i] == rows[i]);
        assert forall|a: int, b: int| 0 <= a < b < rest.len() implies (#[trigger] rest[a]).0 < (
        #[trigger] rest[b]).0 by {
            assert(rest[a] == rows[a] && rest[b] == rows[b]);
        }
        lemma_rows_removed(rest, i);
        assert(rest.remove(i).push(rows.last()) =~= rows.remove(i));
    }
}

} // verus!
