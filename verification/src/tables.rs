//! The insertion-ordered hash tables of the `indexmap` crate, each stated by what it holds.

use vstd::prelude::*;
use indexmap::{IndexMap, IndexSet};
use crate::hash_map::{entry_value, key_position, without_key};
use crate::hash_set::{item_position, with_item, without_item};
use crate::value::Val;
use crate::value::Value;

verus! {

/// An insertion-ordered hash map of values.
#[verifier::external_body]
#[derive(Debug)]
pub struct ValueTable {
    inner: IndexMap<Value, Value>,
}

/// The entries that the table holds, in insertion order.
pub uninterp spec fn table_entries(t: ValueTable) -> Seq<(Val, Val)>;

/// The entries with `key` bound to `value`: an equal key stays, in its place; a new one comes
/// last.
pub open spec fn rebound(entries: Seq<(Val, Val)>, key: Val, value: Val) -> Seq<(Val, Val)> {
    match key_position(entries, key) {
        Some(i) => entries.update(i, (entries[i].0, value)),
        None => entries.push((key, value)),
    }
}

/// What an optional value holds.
pub open spec fn optional(v: Option<Value>) -> Option<Val> {
    match v {
        Some(v) => Some(v.view()),
        None => None,
    }
}

/// What an optional value holds.
pub open spec fn optional_ref(v: Option<&Value>) -> Option<Val> {
    match v {
        Some(v) => Some(v.view()),
        None => None,
    }
}

/// `IndexMap::new`: the empty table.
#[verifier::external_body]
pub(crate) fn table_new() -> (r: ValueTable)
    ensures
        table_entries(r).len() == 0,
{
    ValueTable { inner: IndexMap::new() }
}

/// `IndexMap::get`: the value under an equal key.
#[verifier::external_body]
pub(crate) fn table_get<'a>(t: &'a ValueTable, key: &Value) -> (r: Option<&'a Value>)
    ensures
        optional_ref(r) == entry_value(table_entries(*t), key.view()),
{
    t.inner.get(key)
}

/// `IndexMap::insert`: binds the key, keeping an equal one where it stands, and gives the value
/// that was bound before.
#[verifier::external_body]
pub(crate) fn table_insert(t: &mut ValueTable, key: Value, value: Value) -> (r: Option<Value>)
    ensures
        optional(r) == entry_value(table_entries(*old(t)), key.view()),
        table_entries(*final(t)) == rebound(table_entries(*old(t)), key.view(), value.view()),
{
    t.inner.insert(key, value)
}

/// `IndexMap::shift_remove`: removes the entry with an equal key, keeping the order of the others,
/// and gives its value.
#[verifier::external_body]
pub(crate) fn table_remove(t: &mut ValueTable, key: &Value) -> (r: Option<Value>)
    ensures
        optional(r) == entry_value(table_entries(*old(t)), key.view()),
        table_entries(*final(t)) == without_key(table_entries(*old(t)), key.view()),
{
    t.inner.shift_remove(key)
}

/// `IndexMap::len`: the number of entries.
#[verifier::external_body]
pub(crate) fn table_len(t: &ValueTable) -> (r: usize)
    ensures
        r == table_entries(*t).len(),
{
    t.inner.len()
}

/// `IndexMap::clear`: removes every entry.
#[verifier::external_body]
pub(crate) fn table_clear(t: &mut ValueTable)
    ensures
        table_entries(*final(t)).len() == 0,
{
    t.inner.clear();
}

/// `IndexMap::iter`: the entries in their order.
#[verifier::external_body]
pub(crate) fn table_iter(t: &ValueTable) -> (r: Vec<(&Value, &Value)>)
    ensures
        r@.len() == table_entries(*t).len(),
        forall|i: int| 0 <= i < r@.len() ==> (#[trigger] r@[i]).0.view() == table_entries(*t)[i].0,
        forall|i: int| 0 <= i < r@.len() ==> (#[trigger] r@[i]).1.view() == table_entries(*t)[i].1,
{
    t.inner.iter().collect()
}

/// An insertion-ordered hash set of values.
#[verifier::external_body]
#[derive(Debug)]
pub struct ItemTable {
    inner: IndexSet<Value>,
}

/// The elements that the table holds, in insertion order.
pub uninterp spec fn table_items(t: ItemTable) -> Seq<Val>;

/// `IndexSet::new`: the empty table.
#[verifier::external_body]
pub(crate) fn items_new() -> (r: ItemTable)
    ensures
        table_items(r).len() == 0,
{
    ItemTable { inner: IndexSet::new() }
}

/// `IndexSet::contains`: whether an equal element is there.
#[verifier::external_body]
pub(crate) fn items_contain(t: &ItemTable, v: &Value) -> (r: bool)
    ensures
        r == item_position(table_items(*t), v.view()) is Some,
{
    t.inner.contains(v)
}

/// `IndexSet::insert`: adds the element last unless an equal one is there, and says whether it
/// did.
#[verifier::external_body]
pub(crate) fn items_insert(t: &mut ItemTable, v: Value) -> (r: bool)
    ensures
        r == item_position(table_items(*old(t)), v.view()) is None,
        table_items(*final(t)) == with_item(table_items(*old(t)), v.view()),
{
    t.inner.insert(v)
}

/// `IndexSet::shift_remove`: removes the equal element, keeping the order of the others, and says
/// whether there was one.
#[verifier::external_body]
pub(crate) fn items_remove(t: &mut ItemTable, v: &Value) -> (r: bool)
    ensures
        r == item_position(table_items(*old(t)), v.view()) is Some,
        table_items(*final(t)) == without_item(table_items(*old(t)), v.view()),
{
    t.inner.shift_remove(v)
}

/// `IndexSet::len`: the number of elements.
#[verifier::external_body]
pub(crate) fn items_len(t: &ItemTable) -> (r: usize)
    ensures
        r == table_items(*t).len(),
{
    t.inner.len()
}

/// `IndexSet::clear`: removes every element.
#[verifier::external_body]
pub(crate) fn items_clear(t: &mut ItemTable)
    ensures
        table_items(*final(t)).len() == 0,
{
    t.inner.clear();
}

/// `IndexSet::iter`: the elements in their order.
#[verifier::external_body]
pub(crate) fn items_iter(t: &ItemTable) -> (r: Vec<&Value>)
    ensures
        r@.len() == table_items(*t).len(),
        forall|i: int| 0 <= i < r@.len() ==> (#[trigger] r@[i]).view() == table_items(*t)[i],
{
    t.inner.iter().collect()
}

} // verus!
