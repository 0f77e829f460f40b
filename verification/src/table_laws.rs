//! Laws of tables: the order of their keys, ranks, and how tables are opened; and of removing from
//! sorted collections.

use vstd::prelude::*;
use crate::bytes::{be_bytes, be_value, lex_lt};
use crate::bytes::{lemma_be_order, lemma_be_round_trip, lemma_split_orders, pow256};
use crate::lmdb::{opening, table_named, Dbi, EnvOptions, Error, TableView};
use crate::lmdb::lemma_table_named;
use crate::rows::{before_cut, front, rank, rank_past, rear, sorted_rows, Row};
use crate::rows::lemma_cut;
use crate::sorted_by::{has_item, items_but, keys_but, value_of};
use crate::value::{same, Val};

verus! {

/// Keys are in the order of their first difference; a key comes before every longer one that starts
/// with it.
pub proof fn law_key_order(p: Seq<u8>, x: u8, y: u8, a: Seq<u8>, b: Seq<u8>)
    ensures
        x < y ==> lex_lt(p + seq![x] + a, p + seq![y] + b),
        lex_lt(p, p + seq![x] + a),
        !lex_lt(p + a, p),
    decreases p.len(),
{
    if p.len() == 0 {
        assert((p + seq![x] + a)[0] == x && (p + seq![y] + b)[0] == y);
    } else {
        let q = p.skip(1);
        law_key_order(q, x, y, a, b);
        assert((p + seq![x] + a).skip(1) =~= q + seq![x] + a);
        assert((p + seq![y] + b).skip(1) =~= q + seq![y] + b);
        assert((p + a).skip(1) =~= q + a);
        assert((p + seq![x] + a)[0] == p[0] && (p + seq![y] + b)[0] == p[0] && (p + a)[0] == p[0]);
    }
}

/// Numbers as bytes read back, and are in their own order.
pub proof fn law_numbers_as_bytes(n: nat, m: nat, k: nat)
    requires
        n < m,
        m < pow256(k),
    ensures
        be_value(be_bytes(n, k)) == n,
        be_value(be_bytes(m, k)) == m,
        lex_lt(be_bytes(n, k), be_bytes(m, k)),
{
    lemma_be_round_trip(n, k);
    lemma_be_round_trip(m, k);
    lemma_be_order(n, m, k);
    let none = Seq::<u8>::empty();
    lemma_split_orders(be_bytes(n, k), be_bytes(m, k), none, none);
    assert(be_bytes(n, k) + none =~= be_bytes(n, k));
    assert(be_bytes(m, k) + none =~= be_bytes(m, k));
}

/// The rank of a key is how many rows have smaller keys; past it are the rows with the key too.
pub proof fn law_ranks(rows: Seq<Row>, dup: bool, key: Seq<u8>, i: int)
    requires
        sorted_rows(rows, dup),
        0 <= i < rows.len(),
    ensures
        rank(rows, key) <= rows.len(),
        rank_past(rows, key) <= rows.len(),
        i < rank(rows, key) <==> lex_lt(rows[i].0, key),
        i < rank_past(rows, key) <==> !lex_lt(key, rows[i].0),
{
    lemma_cut(rows, dup, front(key));
    lemma_cut(rows, dup, rear(key));
    assert(before_cut(rows[i], front(key)) <==> i < rank(rows, key));
    assert(before_cut(rows[i], rear(key)) <==> i < rank_past(rows, key));
    crate::bytes::lemma_lex_total(rows[i].0, key);
    if lex_lt(rows[i].0, key) {
        crate::bytes::lemma_lex_asymmetric(rows[i].0, key);
    }
    crate::bytes::lemma_lex_irreflexive(key);
}

/// Opening gives the table of the name with its rows as they are, or a new empty one at the end where
/// there is none and one may be created; the other tables stay. Each refusal has its code.
pub proof fn law_opening(
    tables: Seq<TableView>,
    settings: EnvOptions,
    name: Seq<char>,
    flags: u32,
)
    requires
        tables.len() <= u32::MAX,
    ensures
        opening(tables, settings, name, flags) matches Ok((after, dbi)) ==> {
            &&& dbi.0 < after.len()
            &&& after[dbi.0 as int].name == name
            &&& after.take(tables.len() as int) == tables
            &&& table_named(tables, name) is Some ==> after == tables
            &&& table_named(tables, name) is None ==> after.len() == tables.len() + 1
                && after[dbi.0 as int].rows.len() == 0 && after[dbi.0 as int].flags == flags
        },
        settings.flags.0 & 0x20000 != 0 ==> opening(tables, settings, name, flags) == Err::<
            (Seq<TableView>, Dbi),
            Error,
        >(Error(13)),
        settings.flags.0 & 0x20000 == 0 && crate::lmdb::nul_free(name) && table_named(tables, name)
            is None && flags & 0x40000 == 0 ==> opening(tables, settings, name, flags) == Err::<
            (Seq<TableView>, Dbi),
            Error,
        >(Error((-30798) as i32)),
        settings.flags.0 & 0x20000 == 0 && crate::lmdb::nul_free(name) && table_named(tables, name)
            is None && flags & 0x40000 != 0 && tables.len() >= settings.max_dbs ==> opening(
            tables,
            settings,
            name,
            flags,
        ) == Err::<(Seq<TableView>, Dbi), Error>(Error((-30791) as i32)),
        settings.flags.0 & 0x20000 == 0 && crate::lmdb::nul_free(name) && table_named(tables, name)
            is None && flags & 0x40000 != 0 && tables.len() < settings.max_dbs ==> opening(
            tables,
            settings,
            name,
            flags,
        ) is Ok,
{
    lemma_table_named(tables, name);
    assert(tables.take(tables.len() as int) =~= tables);
    let fresh = tables.push(TableView { name, flags, rows: Seq::empty() });
    assert(fresh.take(tables.len() as int) =~= tables);
}

/// A table keeps several values under a key, or counts, where its flags say so.
pub proof fn law_table_flags(t: TableView)
    ensures
        t.dup() <==> t.flags & 0x04 != 0,
        t.counted() <==> t.flags & 0x80 != 0,
{
}

/// Removing a key from a sorted map takes out every entry whose key equals it, and no other; the
/// entries that stay keep their order.
pub proof fn law_sorted_map_removal(entries: Seq<(Val, Val)>, key: Val, e: (Val, Val))
    ensures
        keys_but(entries, key).contains(e) <==> entries.contains(e) && !same(e.0, key),
        value_of(keys_but(entries, key), key) is None,
        !(exists|i: int| 0 <= i < entries.len() && same((#[trigger] entries[i]).0, key))
            ==> keys_but(entries, key) == entries,
    decreases entries.len(),
{
    let after = keys_but(entries, key);
    if entries.len() > 0 {
        let rest = entries.drop_last();
        let last = entries.last();
        let before = keys_but(rest, key);
        law_sorted_map_removal(rest, key, e);
        if entries.contains(e) {
            let i = choose|i: int| 0 <= i < entries.len() && entries[i] == e;
            if i < rest.len() {
                assert(rest[i] == e);
            }
        }
        if rest.contains(e) {
            let i = choose|i: int| 0 <= i < rest.len() && rest[i] == e;
            assert(entries[i] == e);
        }
        assert(entries[entries.len() - 1] == last);
        if !same(last.0, key) {
            assert(after == before.push(last));
            assert(after[before.len() as int] == last);
            assert(after.drop_last() =~= before);
            if before.contains(e) {
                let i = choose|i: int| 0 <= i < before.len() && before[i] == e;
                assert(after[i] == e);
            }
            if after.contains(e) && e != last {
                let i = choose|i: int| 0 <= i < after.len() && after[i] == e;
                assert(before[i] == e);
            }
        }
        if !(exists|i: int| 0 <= i < entries.len() && same((#[trigger] entries[i]).0, key)) {
            assert forall|i: int| 0 <= i < rest.len() implies !same((#[trigger] rest[i]).0, key) by {
                assert(rest[i] == entries[i]);
            }
            assert(!same(entries[entries.len() - 1].0, key));
            assert(rest.push(last) =~= entries);
        }
    }
}

/// Removing a value from a sorted set takes out every element that equals it, and no other.
pub proof fn law_sorted_set_removal(items: Seq<Val>, v: Val, x: Val)
    ensures
        items_but(items, v).contains(x) <==> items.contains(x) && !same(x, v),
        !has_item(items_but(items, v), v),
    decreases items.len(),
{
    let after = items_but(items, v);
    if items.len() > 0 {
        let rest = items.drop_last();
        let last = items.last();
        let before = items_but(rest, v);
        law_sorted_set_removal(rest, v, x);
        if items.contains(x) {
            let i = choose|i: int| 0 <= i < items.len() && items[i] == x;
            if i < rest.len() {
                assert(rest[i] == x);
            }
        }
        if rest.contains(x) {
            let i = choose|i: int| 0 <= i < rest.len() && rest[i] == x;
            assert(items[i] == x);
        }
        assert(items[items.len() - 1] == last);
        if !same(last, v) {
            assert(after == before.push(last));
            assert(after[before.len() as int] == last);
            if before.contains(x) {
                let i = choose|i: int| 0 <= i < before.len() && before[i] == x;
                assert(after[i] == x);
            }
            if after.contains(x) && x != last {
                let i = choose|i: int| 0 <= i < after.len() && after[i] == x;
                assert(before[i] == x);
            }
            if has_item(after, v) {
                let i = choose|i: int| 0 <= i < after.len() && same(#[trigger] after[i], v);
                assert(same(before[i], v));
            }
        }
    }
}

} // verus!
