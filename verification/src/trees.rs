//! The persistent trees of the `rpds` crate that the insertion-ordered collections rest on, each
//! stated by what it holds.

use vstd::prelude::*;
use rpds::{HashTrieMapSync, RedBlackTreeMapSync};
use crate::value::Value;

verus! {

/// A persistent hash trie from a bucket number to the sequence numbers filed under it.
#[verifier::external_body]
#[derive(Debug)]
pub struct SeqIndex {
    inner: HashTrieMapSync<u64, Vec<u64>>,
}

/// What the trie holds: the numbers filed under each bucket that has an entry.
pub uninterp spec fn filed(t: SeqIndex) -> Map<u64, Seq<u64>>;

/// No bucket has an entry.
pub open spec fn no_entries() -> Map<u64, Seq<u64>> {
    Map::empty()
}

/// `HashTrieMapSync::new_sync`: the empty trie.
#[verifier::external_body]
pub(crate) fn index_new() -> (r: SeqIndex)
    ensures
        filed(r) == no_entries(),
{
    SeqIndex { inner: HashTrieMapSync::new_sync() }
}

/// `HashTrieMap::get`: the entry under `key`, if there is one.
#[verifier::external_body]
pub(crate) fn index_get(t: &SeqIndex, key: u64) -> (r: Option<&Vec<u64>>)
    ensures
        r is Some <==> filed(*t).contains_key(key),
        r matches Some(v) ==> v@ == filed(*t)[key],
{
    t.inner.get(&key)
}

/// `HashTrieMap::insert`: the trie with the entry under `key` added or replaced.
#[verifier::external_body]
pub(crate) fn index_insert(t: &SeqIndex, key: u64, numbers: Vec<u64>) -> (r: SeqIndex)
    ensures
        filed(r) == filed(*t).insert(key, numbers@),
{
    SeqIndex { inner: t.inner.insert(key, numbers) }
}

/// `HashTrieMap::remove`: the trie without an entry under `key`.
#[verifier::external_body]
pub(crate) fn index_remove(t: &SeqIndex, key: u64) -> (r: SeqIndex)
    ensures
        filed(r) == filed(*t).remove(key),
{
    SeqIndex { inner: t.inner.remove(&key) }
}

/// `HashTrieMap::clone`: a trie that holds the same.
#[verifier::external_body]
pub(crate) fn index_clone(t: &SeqIndex) -> (r: SeqIndex)
    ensures
        filed(r) == filed(*t),
{
    SeqIndex { inner: t.inner.clone() }
}

/// A persistent red-black tree from sequence number to entry.
#[verifier::external_body]
#[derive(Debug)]
pub struct EntryTree {
    inner: RedBlackTreeMapSync<u64, (Value, Value)>,
}

/// What the tree holds, by ascending sequence number.
pub uninterp spec fn filed_rows(t: EntryTree) -> Seq<(u64, (Value, Value))>;

/// The sequence numbers ascend.
pub open spec fn ascending(rows: Seq<(u64, (Value, Value))>) -> bool {
    forall|i: int, j: int| 0 <= i < j < rows.len() ==> (#[trigger] rows[i]).0 < (#[trigger] rows[j]).0
}

/// The rows with the one numbered `n` added in its place, or replaced.
pub open spec fn rows_with(
    rows: Seq<(u64, (Value, Value))>,
    n: u64,
    entry: (Value, Value),
) -> Seq<(u64, (Value, Value))>
    decreases rows.len(),
{
    if rows.len() == 0 || rows.last().0 < n {
        rows.push((n, entry))
    } else if rows.last().0 == n {
        rows.drop_last().push((n, entry))
    } else {
        rows_with(rows.drop_last(), n, entry).push(rows.last())
    }
}

/// The rows without the one numbered `n`.
pub open spec fn rows_without(rows: Seq<(u64, (Value, Value))>, n: u64) -> Seq<
    (u64, (Value, Value)),
>
    decreases rows.len(),
{
    if rows.len() == 0 {
        rows
    } else if rows.last().0 == n {
        rows.drop_last()
    } else {
        rows_without(rows.drop_last(), n).push(rows.last())
    }
}

/// The entry of the row numbered `n`.
pub open spec fn row_numbered(rows: Seq<(u64, (Value, Value))>, n: u64) -> Option<(Value, Value)>
    decreases rows.len(),
{
    if rows.len() == 0 {
        None
    } else if rows.last().0 == n {
        Some(rows.last().1)
    } else {
        row_numbered(rows.drop_last(), n)
    }
}

/// `RedBlackTreeMapSync::new_sync`: the empty tree.
#[verifier::external_body]
pub(crate) fn tree_new() -> (r: EntryTree)
    ensures
        filed_rows(r).len() == 0,
{
    EntryTree { inner: RedBlackTreeMapSync::new_sync() }
}

/// `RedBlackTreeMap::get`: the entry numbered `n`, if there is one.
#[verifier::external_body]
pub(crate) fn tree_get(t: &EntryTree, n: u64) -> (r: Option<&(Value, Value)>)
    ensures
        r is Some == row_numbered(filed_rows(*t), n) is Some,
        r matches Some(e) ==> row_numbered(filed_rows(*t), n) == Some(*e),
{
    t.inner.get(&n)
}

/// `RedBlackTreeMap::insert`: the tree with the entry numbered `n` added or replaced.
#[verifier::external_body]
pub(crate) fn tree_insert(t: &EntryTree, n: u64, entry: (Value, Value)) -> (r: EntryTree)
    ensures
        filed_rows(r) == rows_with(filed_rows(*t), n, entry),
{
    EntryTree { inner: t.inner.insert(n, entry) }
}

/// `RedBlackTreeMap::remove`: the tree without an entry numbered `n`.
#[verifier::external_body]
pub(crate) fn tree_remove(t: &EntryTree, n: u64) -> (r: EntryTree)
    ensures
        filed_rows(r) == rows_without(filed_rows(*t), n),
{
    EntryTree { inner: t.inner.remove(&n) }
}

/// `RedBlackTreeMap::size`: the number of entries.
#[verifier::external_body]
pub(crate) fn tree_size(t: &EntryTree) -> (r: usize)
    ensures
        r == filed_rows(*t).len(),
{
    t.inner.size()
}

/// `RedBlackTreeMap::iter`: the entries by ascending sequence number.
#[verifier::external_body]
pub(crate) fn tree_entries(t: &EntryTree) -> (r: Vec<&(Value, Value)>)
    ensures
        r@.len() == filed_rows(*t).len(),
        forall|i: int| 0 <= i < r@.len() ==> *(#[trigger] r@[i]) == filed_rows(*t)[i].1,
{
    t.inner.iter().map(|row| row.1).collect()
}

/// `RedBlackTreeMap::clone`: a tree that holds the same.
#[verifier::external_body]
pub(crate) fn tree_clone(t: &EntryTree) -> (r: EntryTree)
    ensures
        filed_rows(r) == filed_rows(*t),
{
    EntryTree { inner: t.inner.clone() }
}

} // verus!
