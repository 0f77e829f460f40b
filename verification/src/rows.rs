//! Sorted key/value rows: the contents of one ordered table, as sequences.

use vstd::prelude::*;
use crate::bytes::{lex_compare, lex_lt, Rank};
use crate::bytes::{lemma_lex_asymmetric, lemma_lex_irreflexive, lemma_lex_total, lemma_lex_transitive};

verus! {

/// One stored pair.
pub type Row = (Seq<u8>, Seq<u8>);

/// Pairs sort by key, then by value.
pub open spec fn row_lt(a: Row, b: Row) -> bool {
    lex_lt(a.0, b.0) || (a.0 == b.0 && lex_lt(a.1, b.1))
}

/// Rows in strictly ascending order; without duplicates the keys alone ascend.
pub open spec fn sorted_rows(rows: Seq<Row>, dup: bool) -> bool {
    &&& forall|i: int, j: int| #![trigger rows[i], rows[j]]
        0 <= i < j < rows.len() ==> row_lt(rows[i], rows[j])
    &&& !dup ==> forall|i: int, j: int| #![trigger rows[i], rows[j]]
        0 <= i < j < rows.len() ==> lex_lt(rows[i].0, rows[j].0)
}

/// A place between rows: before or behind all rows of a key, or before or behind one pair.
pub struct Cut {
    pub key: Seq<u8>,
    pub value: Option<Seq<u8>>,
    pub behind: bool,
}

/// Whether `row` lies before the place.
pub open spec fn before_cut(row: Row, cut: Cut) -> bool {
    match cut.value {
        None => if cut.behind {
            !lex_lt(cut.key, row.0)
        } else {
            lex_lt(row.0, cut.key)
        },
        Some(v) => if cut.behind {
            !row_lt((cut.key, v), row)
        } else {
            row_lt(row, (cut.key, v))
        },
    }
}

/// How many rows lie before the place.
pub open spec fn cut_at(rows: Seq<Row>, cut: Cut) -> nat
    decreases rows.len(),
{
    if rows.len() == 0 {
        0
    } else {
        cut_at(rows.drop_last(), cut) + if before_cut(rows.last(), cut) {
            1nat
        } else {
            0nat
        }
    }
}

/// Before every row with this key.
pub open spec fn front(key: Seq<u8>) -> Cut {
    Cut { key, value: None, behind: false }
}

/// Behind every row with this key.
pub open spec fn rear(key: Seq<u8>) -> Cut {
    Cut { key, value: None, behind: true }
}

/// How many rows have a key below `key`: the rank of the first row at or above it.
pub open spec fn rank(rows: Seq<Row>, key: Seq<u8>) -> nat {
    cut_at(rows, front(key))
}

/// How many rows have a key at or below `key`.
pub open spec fn rank_past(rows: Seq<Row>, key: Seq<u8>) -> nat {
    cut_at(rows, rear(key))
}

pub proof fn lemma_row_transitive(a: Row, b: Row, c: Row)
    requires
        row_lt(a, b),
        row_lt(b, c),
    ensures
        row_lt(a, c),
{
    lemma_lex_irreflexive(a.0);
    if lex_lt(a.0, b.0) && lex_lt(b.0, c.0) {
        lemma_lex_transitive(a.0, b.0, c.0);
    }
    if a.0 == b.0 && b.0 == c.0 {
        lemma_lex_transitive(a.1, b.1, c.1);
    }
}

pub proof fn lemma_row_irreflexive(a: Row)
    ensures
        !row_lt(a, a),
{
    lemma_lex_irreflexive(a.0);
    lemma_lex_irreflexive(a.1);
}

pub proof fn lemma_row_total(a: Row, b: Row)
    ensures
        a == b || row_lt(a, b) || row_lt(b, a),
{
    lemma_lex_total(a.0, b.0);
    lemma_lex_total(a.1, b.1);
}

/// What lies before a row that is before the place is before it too.
proof fn lemma_cut_downward(a: Row, b: Row, cut: Cut)
    requires
        row_lt(a, b),
        before_cut(b, cut),
    ensures
        before_cut(a, cut),
{
    match cut.value {
        None => {
            if cut.behind {
                if lex_lt(cut.key, a.0) {
                    if a.0 != b.0 {
                        lemma_lex_transitive(cut.key, a.0, b.0);
                    }
                }
            } else {
                if a.0 != b.0 {
                    lemma_lex_transitive(a.0, b.0, cut.key);
                }
            }
        },
        Some(v) => {
            if cut.behind {
                if row_lt((cut.key, v), a) {
                    lemma_row_transitive((cut.key, v), a, b);
                }
            } else {
                lemma_row_transitive(a, b, (cut.key, v));
            }
        },
    }
}

/// In sorted rows, the rows before a place are those with an index below its count.
pub proof fn lemma_cut(rows: Seq<Row>, dup: bool, cut: Cut)
    requires
        sorted_rows(rows, dup),
    ensures
        cut_at(rows, cut) <= rows.len(),
        forall|i: int| #![trigger rows[i]]
            0 <= i < rows.len() ==> (before_cut(rows[i], cut) <==> i < cut_at(rows, cut)),
    decreases rows.len(),
{
    if rows.len() > 0 {
        let init = rows.drop_last();
        assert(sorted_rows(init, dup)) by {
            assert forall|i: int, j: int| #![trigger init[i], init[j]]
                0 <= i < j < init.len() implies row_lt(init[i], init[j]) && (!dup ==> lex_lt(
                init[i].0,
                init[j].0,
            )) by {
                assert(init[i] == rows[i] && init[j] == rows[j]);
            }
        }
        lemma_cut(init, dup, cut);
        let n = cut_at(init, cut);
        let last = rows.last();
        assert forall|i: int| #![trigger rows[i]] 0 <= i < rows.len() implies (before_cut(
            rows[i],
            cut,
        ) <==> i < cut_at(rows, cut)) by {
            if i < init.len() {
                assert(init[i] == rows[i]);
                assert(row_lt(rows[i], rows[rows.len() - 1]));
                if before_cut(last, cut) {
                    lemma_cut_downward(rows[i], last, cut);
                    if n < init.len() {
                        assert(row_lt(rows[n as int], last));
                        lemma_cut_downward(rows[n as int], last, cut);
                        assert(init[n as int] == rows[n as int]);
                    }
                }
            } else {
                assert(rows[i] == last);
                if before_cut(last, cut) {
                    if n < init.len() {
                        assert(row_lt(rows[n as int], rows[rows.len() - 1]));
                        lemma_cut_downward(rows[n as int], last, cut);
                        assert(init[n as int] == rows[n as int]);
                    }
                }
            }
        }
    }
}

/// The count of a place is the only index that parts the rows as the place does.
pub proof fn lemma_cut_unique(rows: Seq<Row>, dup: bool, cut: Cut, n: nat)
    requires
        sorted_rows(rows, dup),
        n <= rows.len(),
        forall|i: int| 0 <= i < n ==> before_cut(#[trigger] rows[i], cut),
        forall|i: int| n <= i < rows.len() ==> !before_cut(#[trigger] rows[i], cut),
    ensures
        cut_at(rows, cut) == n,
{
    lemma_cut(rows, dup, cut);
    let m = cut_at(rows, cut);
    if m < n {
        assert(before_cut(rows[m as int], cut));
    } else if n < m {
        assert(before_cut(rows[n as int], cut));
    }
}

/// The value stored under `key`: that of its first row.
pub open spec fn lookup(rows: Seq<Row>, key: Seq<u8>) -> Option<Seq<u8>> {
    let at = rank(rows, key) as int;
    if at < rows.len() && rows[at].0 == key {
        Some(rows[at].1)
    } else {
        None
    }
}

/// The pair at which a write takes place: the whole key, or one of its duplicates.
pub open spec fn slot(dup: bool, value: Option<Seq<u8>>) -> Option<Seq<u8>> {
    if dup {
        value
    } else {
        None
    }
}

/// The rows with `value` stored under `key`: it replaces what the key held, or joins its
/// duplicates in order.
pub open spec fn put_row(rows: Seq<Row>, dup: bool, key: Seq<u8>, value: Seq<u8>) -> Seq<Row> {
    let at = slot(dup, Some(value));
    rows.take(cut_at(rows, Cut { key, value: at, behind: false }) as int).push((key, value))
        + rows.skip(cut_at(rows, Cut { key, value: at, behind: true }) as int)
}

/// The rows without those of `key`, or without one of its duplicates.
pub open spec fn del_row(rows: Seq<Row>, dup: bool, key: Seq<u8>, value: Option<Seq<u8>>) -> Seq<
    Row,
> {
    let at = slot(dup, value);
    rows.take(cut_at(rows, Cut { key, value: at, behind: false }) as int) + rows.skip(
        cut_at(rows, Cut { key, value: at, behind: true }) as int,
    )
}

/// What lies before the front of a key or pair lies before its rear.
pub proof fn lemma_cut_pair(rows: Seq<Row>, dup: bool, key: Seq<u8>, value: Option<Seq<u8>>)
    requires
        sorted_rows(rows, dup),
    ensures
        cut_at(rows, Cut { key, value, behind: false }) <= cut_at(
            rows,
            Cut { key, value, behind: true },
        ) <= rows.len(),
        !dup || value is Some ==> cut_at(rows, Cut { key, value, behind: true }) <= cut_at(
            rows,
            Cut { key, value, behind: false },
        ) + 1,
        forall|i: int| #![trigger rows[i]]
            0 <= i < rows.len() ==> ((cut_at(rows, Cut { key, value, behind: false }) <= i
                < cut_at(rows, Cut { key, value, behind: true })) <==> (rows[i].0 == key && (
            value matches Some(v) ==> rows[i].1 == v))),
{
    let lo_cut = Cut { key, value, behind: false };
    let hi_cut = Cut { key, value, behind: true };
    lemma_cut(rows, dup, lo_cut);
    lemma_cut(rows, dup, hi_cut);
    let lo = cut_at(rows, lo_cut);
    let hi = cut_at(rows, hi_cut);
    if hi < lo {
        let r = rows[hi as int];
        match value {
            None => {
                lemma_lex_asymmetric(r.0, key);
            },
            Some(v) => {
                lemma_row_transitive(r, (key, v), r);
                lemma_row_irreflexive(r);
            },
        }
    }
    assert forall|i: int| #![trigger rows[i]] 0 <= i < rows.len() implies ((lo <= i < hi) <==> (
    rows[i].0 == key && (value matches Some(v) ==> rows[i].1 == v))) by {
        match value {
            None => {
                lemma_lex_total(rows[i].0, key);
                lemma_lex_irreflexive(key);
            },
            Some(v) => {
                lemma_row_total(rows[i], (key, v));
                lemma_row_irreflexive((key, v));
            },
        }
    }
    if (!dup || value is Some) && hi > lo + 1 {
        let a = rows[lo as int];
        let b = rows[(lo + 1) as int];
        assert(row_lt(a, b));
        lemma_lex_irreflexive(key);
        lemma_row_irreflexive(a);
    }
}

/// Writing keeps the rows sorted.
pub proof fn lemma_put_sorted(rows: Seq<Row>, dup: bool, key: Seq<u8>, value: Seq<u8>)
    requires
        sorted_rows(rows, dup),
    ensures
        sorted_rows(put_row(rows, dup, key, value), dup),
{
    let at = slot(dup, Some(value));
    let lo_cut = Cut { key, value: at, behind: false };
    let hi_cut = Cut { key, value: at, behind: true };
    lemma_cut_pair(rows, dup, key, at);
    lemma_cut(rows, dup, lo_cut);
    lemma_cut(rows, dup, hi_cut);
    let lo = cut_at(rows, lo_cut);
    let hi = cut_at(rows, hi_cut);
    let new = put_row(rows, dup, key, value);
    assert forall|i: int, j: int| #![trigger new[i], new[j]]
        0 <= i < j < new.len() implies row_lt(new[i], new[j]) && (!dup ==> lex_lt(
        new[i].0,
        new[j].0,
    )) by {
        if i < lo {
            assert(new[i] == rows[i]);
            assert(before_cut(rows[i], lo_cut));
        } else if i > lo {
            assert(new[i] == rows[hi + (i - lo - 1)]);
        }
        if j < lo {
            assert(new[j] == rows[j]);
        } else if j > lo {
            assert(new[j] == rows[hi + (j - lo - 1)]);
            let r = rows[hi + (j - lo - 1)];
            assert(!before_cut(r, hi_cut));
        }
    }
}

/// Deleting keeps the rows sorted.
pub proof fn lemma_del_sorted(rows: Seq<Row>, dup: bool, key: Seq<u8>, value: Option<Seq<u8>>)
    requires
        sorted_rows(rows, dup),
    ensures
        sorted_rows(del_row(rows, dup, key, value), dup),
{
    let at = slot(dup, value);
    lemma_cut_pair(rows, dup, key, at);
    let lo = cut_at(rows, Cut { key, value: at, behind: false });
    let hi = cut_at(rows, Cut { key, value: at, behind: true });
    let new = del_row(rows, dup, key, value);
    assert forall|i: int, j: int| #![trigger new[i], new[j]]
        0 <= i < j < new.len() implies row_lt(new[i], new[j]) && (!dup ==> lex_lt(
        new[i].0,
        new[j].0,
    )) by {
        assert(new[i] == rows[if i < lo { i } else { hi + (i - lo) }]);
        assert(new[j] == rows[if j < lo { j } else { hi + (j - lo) }]);
    }
}

/// Whether the pair is among the rows.
pub open spec fn has_row(rows: Seq<Row>, row: Row) -> bool {
    exists|i: int| 0 <= i < rows.len() && #[trigger] rows[i] == row
}

/// Whether some row has the key.
pub open spec fn has_key(rows: Seq<Row>, key: Seq<u8>) -> bool {
    exists|i: int| 0 <= i < rows.len() && (#[trigger] rows[i]).0 == key
}

/// After a write the pair is there, and every other pair is there if it was before, unless it is
/// what the write replaced.
pub proof fn law_put_contents(rows: Seq<Row>, dup: bool, key: Seq<u8>, value: Seq<u8>, other: Row)
    requires
        sorted_rows(rows, dup),
    ensures
        has_row(put_row(rows, dup, key, value), other) <==> (other == (key, value) || (has_row(
            rows,
            other,
        ) && (dup || other.0 != key))),
{
    let at = slot(dup, Some(value));
    lemma_cut_pair(rows, dup, key, at);
    let lo = cut_at(rows, Cut { key, value: at, behind: false });
    let hi = cut_at(rows, Cut { key, value: at, behind: true });
    let new = put_row(rows, dup, key, value);
    assert(new[lo as int] == (key, value));
    if has_row(rows, other) && (dup || other.0 != key) && other != (key, value) {
        let i = choose|i: int| 0 <= i < rows.len() && #[trigger] rows[i] == other;
        if i < lo {
            assert(new[i] == other);
        } else {
            assert(i >= hi);
            assert(new[lo + 1 + (i - hi)] == other);
        }
    }
    if has_row(new, other) && other != (key, value) {
        let i = choose|i: int| 0 <= i < new.len() && #[trigger] new[i] == other;
        let j = if i < lo {
            i
        } else {
            hi + (i - lo - 1)
        };
        assert(rows[j] == other);
    }
}

/// After a delete exactly the pairs of the key, or the one duplicate, are gone.
pub proof fn law_del_contents(
    rows: Seq<Row>,
    dup: bool,
    key: Seq<u8>,
    value: Option<Seq<u8>>,
    other: Row,
)
    requires
        sorted_rows(rows, dup),
    ensures
        has_row(del_row(rows, dup, key, value), other) <==> (has_row(rows, other) && !(other.0
            == key && (slot(dup, value) matches Some(v) ==> other.1 == v))),
{
    let at = slot(dup, value);
    lemma_cut_pair(rows, dup, key, at);
    let lo = cut_at(rows, Cut { key, value: at, behind: false });
    let hi = cut_at(rows, Cut { key, value: at, behind: true });
    let new = del_row(rows, dup, key, value);
    if has_row(rows, other) && !(other.0 == key && (at matches Some(v) ==> other.1 == v)) {
        let i = choose|i: int| 0 <= i < rows.len() && #[trigger] rows[i] == other;
        if i < lo {
            assert(new[i] == other);
        } else {
            assert(i >= hi);
            assert(new[lo + (i - hi)] == other);
        }
    }
    if has_row(new, other) {
        let i = choose|i: int| 0 <= i < new.len() && #[trigger] new[i] == other;
        let j = if i < lo {
            i
        } else {
            hi + (i - lo)
        };
        assert(rows[j] == other);
    }
}

/// After a write the key is there, and every other key is there if it was before.
pub proof fn law_put_keys(rows: Seq<Row>, key: Seq<u8>, value: Seq<u8>, other: Seq<u8>)
    requires
        sorted_rows(rows, false),
    ensures
        has_key(put_row(rows, false, key, value), other) <==> (other == key || has_key(rows, other)),
{
    let new = put_row(rows, false, key, value);
    if has_key(new, other) {
        let i = choose|i: int| 0 <= i < new.len() && (#[trigger] new[i]).0 == other;
        assert(has_row(new, new[i]));
        law_put_contents(rows, false, key, value, new[i]);
        if other != key {
            let j = choose|j: int| 0 <= j < rows.len() && #[trigger] rows[j] == new[i];
            assert(rows[j].0 == other);
        }
    }
    if other == key {
        law_put_contents(rows, false, key, value, (key, value));
        let i = choose|i: int| 0 <= i < new.len() && #[trigger] new[i] == (key, value);
        assert(new[i].0 == other);
    } else if has_key(rows, other) {
        let i = choose|i: int| 0 <= i < rows.len() && (#[trigger] rows[i]).0 == other;
        assert(has_row(rows, rows[i]));
        law_put_contents(rows, false, key, value, rows[i]);
        let j = choose|j: int| 0 <= j < new.len() && #[trigger] new[j] == rows[i];
        assert(new[j].0 == other);
    }
}

/// After a delete the key is gone, and every other key is there if it was before.
pub proof fn law_del_keys(rows: Seq<Row>, key: Seq<u8>, other: Seq<u8>)
    requires
        sorted_rows(rows, false),
    ensures
        has_key(del_row(rows, false, key, None), other) <==> (other != key && has_key(rows, other)),
{
    let new = del_row(rows, false, key, None);
    if has_key(new, other) {
        let i = choose|i: int| 0 <= i < new.len() && (#[trigger] new[i]).0 == other;
        assert(has_row(new, new[i]));
        law_del_contents(rows, false, key, None, new[i]);
        let j = choose|j: int| 0 <= j < rows.len() && #[trigger] rows[j] == new[i];
        assert(rows[j].0 == other);
    }
    if other != key && has_key(rows, other) {
        let i = choose|i: int| 0 <= i < rows.len() && (#[trigger] rows[i]).0 == other;
        assert(has_row(rows, rows[i]));
        law_del_contents(rows, false, key, None, rows[i]);
        let j = choose|j: int| 0 <= j < new.len() && #[trigger] new[j] == rows[i];
        assert(new[j].0 == other);
    }
}

/// A lookup finds a value exactly where the key has a row, and it is the smallest of them.
pub proof fn law_lookup(rows: Seq<Row>, dup: bool, key: Seq<u8>)
    requires
        sorted_rows(rows, dup),
    ensures
        lookup(rows, key) is Some <==> has_key(rows, key),
        lookup(rows, key) matches Some(v) ==> has_row(rows, (key, v)),
        lookup(rows, key) matches Some(v) ==> forall|w: Seq<u8>|
            has_row(rows, (key, w)) ==> w == v || lex_lt(v, w),
{
    lemma_cut_pair(rows, dup, key, None);
    lemma_cut(rows, dup, front(key));
    lemma_lex_irreflexive(key);
    let at = rank(rows, key) as int;
    if has_key(rows, key) {
        let i = choose|i: int| 0 <= i < rows.len() && (#[trigger] rows[i]).0 == key;
        assert(at <= i);
        assert(rows[at].0 == key);
    }
    if let Some(v) = lookup(rows, key) {
        assert(rows[at] == (key, v));
        assert forall|w: Seq<u8>| has_row(rows, (key, w)) implies w == v || lex_lt(v, w) by {
            let i = choose|i: int| 0 <= i < rows.len() && #[trigger] rows[i] == (key, w);
            if i != at {
                assert(row_lt(rows[at], rows[i]));
            }
        }
    }
}

/// In a table without duplicates a lookup gives back what was last written under the key, and
/// other keys keep what they held.
pub proof fn law_lookup_after_put(rows: Seq<Row>, key: Seq<u8>, value: Seq<u8>, other: Seq<u8>)
    requires
        sorted_rows(rows, false),
    ensures
        lookup(put_row(rows, false, key, value), other) == if other == key {
            Some(value)
        } else {
            lookup(rows, other)
        },
{
    let new = put_row(rows, false, key, value);
    lemma_put_sorted(rows, false, key, value);
    law_lookup(new, false, other);
    law_lookup(rows, false, other);
    if other == key {
        law_put_contents(rows, false, key, value, (key, value));
        assert(has_key(new, key));
        let v = lookup(new, key)->0;
        law_put_contents(rows, false, key, value, (key, v));
    } else {
        if let Some(v) = lookup(rows, other) {
            law_put_contents(rows, false, key, value, (other, v));
            assert(has_key(new, other));
            let w = lookup(new, other)->0;
            law_put_contents(rows, false, key, value, (other, w));
            lemma_single(rows, other, v, w);
        }
        if let Some(v) = lookup(new, other) {
            law_put_contents(rows, false, key, value, (other, v));
            assert(has_key(rows, other));
        }
    }
}

/// After a delete a lookup finds nothing under the key, and other keys keep what they held.
pub proof fn law_lookup_after_del(rows: Seq<Row>, key: Seq<u8>, other: Seq<u8>)
    requires
        sorted_rows(rows, false),
    ensures
        lookup(del_row(rows, false, key, None), other) == if other == key {
            None
        } else {
            lookup(rows, other)
        },
{
    let new = del_row(rows, false, key, None);
    lemma_del_sorted(rows, false, key, None);
    law_lookup(new, false, other);
    law_lookup(rows, false, other);
    if let Some(v) = lookup(rows, other) {
        law_del_contents(rows, false, key, None, (other, v));
        if other != key {
            assert(has_key(new, other));
            let w = lookup(new, other)->0;
            law_del_contents(rows, false, key, None, (other, w));
            lemma_single(rows, other, v, w);
        }
    }
    if let Some(v) = lookup(new, other) {
        law_del_contents(rows, false, key, None, (other, v));
        assert(has_key(rows, other));
    }
}

/// Without duplicates a key has one value.
pub proof fn lemma_single(rows: Seq<Row>, key: Seq<u8>, v: Seq<u8>, w: Seq<u8>)
    requires
        sorted_rows(rows, false),
        has_row(rows, (key, v)),
        has_row(rows, (key, w)),
    ensures
        v == w,
{
    let i = choose|i: int| 0 <= i < rows.len() && #[trigger] rows[i] == (key, v);
    let j = choose|j: int| 0 <= j < rows.len() && #[trigger] rows[j] == (key, w);
    lemma_lex_irreflexive(key);
    if i < j {
        assert(lex_lt(rows[i].0, rows[j].0));
    } else if j < i {
        assert(lex_lt(rows[j].0, rows[i].0));
    }
}

/// Sorted rows are determined by which pairs they hold.
pub proof fn law_rows_are_their_contents(a: Seq<Row>, b: Seq<Row>)
    requires
        sorted_rows(a, true),
        sorted_rows(b, true),
        forall|row: Row| has_row(a, row) <==> has_row(b, row),
    ensures
        a == b,
    decreases a.len(),
{
    if a.len() == 0 {
        if b.len() > 0 {
            assert(has_row(b, b[0]));
        }
        assert(a =~= b);
    } else {
        assert(has_row(a, a.last()));
        assert(has_row(b, a.last()));
        assert(b.len() > 0);
        assert(has_row(b, b.last()));
        let i = choose|i: int| 0 <= i < b.len() && #[trigger] b[i] == a.last();
        let j = choose|j: int| 0 <= j < a.len() && #[trigger] a[j] == b.last();
        if i < b.len() - 1 && j < a.len() - 1 {
            assert(row_lt(b[i], b[b.len() - 1]));
            assert(row_lt(a[j], a[a.len() - 1]));
            lemma_row_transitive(a.last(), b.last(), a.last());
            lemma_row_irreflexive(a.last());
        }
        assert(a.last() == b.last());
        let x = a.drop_last();
        let y = b.drop_last();
        assert(sorted_rows(x, true)) by {
            assert forall|i: int, j: int| #![trigger x[i], x[j]]
                0 <= i < j < x.len() implies row_lt(x[i], x[j]) by {
                assert(x[i] == a[i] && x[j] == a[j]);
            }
        }
        assert(sorted_rows(y, true)) by {
            assert forall|i: int, j: int| #![trigger y[i], y[j]]
                0 <= i < j < y.len() implies row_lt(y[i], y[j]) by {
                assert(y[i] == b[i] && y[j] == b[j]);
            }
        }
        assert forall|row: Row| has_row(x, row) <==> has_row(y, row) by {
            if has_row(x, row) {
                let i = choose|i: int| 0 <= i < x.len() && #[trigger] x[i] == row;
                assert(a[i] == row);
                assert(row_lt(a[i], a[a.len() - 1]));
                lemma_row_irreflexive(row);
                assert(has_row(a, row));
                let k = choose|k: int| 0 <= k < b.len() && #[trigger] b[k] == row;
                assert(y[k] == row);
            }
            if has_row(y, row) {
                let i = choose|i: int| 0 <= i < y.len() && #[trigger] y[i] == row;
                assert(b[i] == row);
                assert(row_lt(b[i], b[b.len() - 1]));
                lemma_row_irreflexive(row);
                assert(has_row(b, row));
                let k = choose|k: int| 0 <= k < a.len() && #[trigger] a[k] == row;
                assert(x[k] == row);
            }
        }
        law_rows_are_their_contents(x, y);
        assert(a =~= x.push(a.last()));
        assert(b =~= y.push(b.last()));
    }
}

// ---------------------------------------------------------------------------
// Executable rows
// ---------------------------------------------------------------------------

/// One stored pair.
pub type Pair = (Vec<u8>, Vec<u8>);

/// What the pairs hold.
pub open spec fn rows_of(pairs: Seq<Pair>) -> Seq<Row> {
    Seq::new(pairs.len(), |i: int| (pairs[i].0@, pairs[i].1@))
}

/// Whether the row lies before the place that `key`, `value` and `behind` give.
fn is_before(pair: &Pair, key: &[u8], value: Option<&[u8]>, behind: bool) -> (r: bool)
    ensures
        r == before_cut(
            (pair.0@, pair.1@),
            Cut {
                key: key@,
                value: match value {
                    Some(v) => Some(v@),
                    None => None,
                },
                behind,
            },
        ),
{
    proof {
        lemma_lex_total(pair.0@, key@);
        lemma_lex_irreflexive(key@);
        if lex_lt(pair.0@, key@) {
            lemma_lex_asymmetric(pair.0@, key@);
        }
        if let Some(v) = value {
            lemma_lex_total(pair.1@, v@);
            lemma_lex_irreflexive(v@);
            if lex_lt(pair.1@, v@) {
                lemma_lex_asymmetric(pair.1@, v@);
            }
        }
    }
    match lex_compare(pair.0.as_slice(), key) {
        Rank::Below => true,
        Rank::Above => false,
        Rank::Same => match value {
            None => behind,
            Some(v) => match lex_compare(pair.1.as_slice(), v) {
                Rank::Below => true,
                Rank::Above => false,
                Rank::Same => behind,
            },
        },
    }
}

/// How many of the sorted pairs lie before a place, by binary search.
pub fn find_cut(
    pairs: &Vec<Pair>,
    key: &[u8],
    value: Option<&[u8]>,
    behind: bool,
) -> (n: usize)
    requires
        sorted_rows(rows_of(pairs@), true),
    ensures
        n <= pairs.len(),
        n as nat == cut_at(
            rows_of(pairs@),
            Cut {
                key: key@,
                value: match value {
                    Some(v) => Some(v@),
                    None => None,
                },
                behind,
            },
        ),
{
    let ghost rows = rows_of(pairs@);
    let ghost cut = Cut {
        key: key@,
        value: match value {
            Some(v) => Some(v@),
            None => None,
        },
        behind,
    };
    let mut lo: usize = 0;
    let mut hi: usize = pairs.len();
    proof {
        lemma_cut(rows, true, cut);
    }
    while lo < hi
        invariant
            lo <= cut_at(rows, cut) <= hi <= pairs.len(),
            rows == rows_of(pairs@),
            cut == (Cut {
                key: key@,
                value: match value {
                    Some(v) => Some(v@),
                    None => None,
                },
                behind,
            }),
            forall|i: int| #![trigger rows[i]]
                0 <= i < rows.len() ==> (before_cut(rows[i], cut) <==> i < cut_at(rows, cut)),
        decreases hi - lo,
    {
        let mid: usize = lo + (hi - lo) / 2;
        assert(rows[mid as int] == (pairs@[mid as int].0@, pairs@[mid as int].1@));
        if is_before(&pairs[mid], key, value, behind) {
            lo = mid + 1;
        } else {
            hi = mid;
        }
    }
    lo
}

/// A copy of the pairs.
pub fn pairs_copy(pairs: &Vec<Pair>) -> (r: Vec<Pair>)
    ensures
        rows_of(r@) == rows_of(pairs@),
{
    let mut r: Vec<Pair> = Vec::new();
    let mut i: usize = 0;
    while i < pairs.len()
        invariant
            i <= pairs.len(),
            r@.len() == i,
            forall|j: int| 0 <= j < i ==> (#[trigger] r@[j]).0@ == pairs@[j].0@ && r@[j].1@
                == pairs@[j].1@,
        decreases pairs.len() - i,
    {
        let k = crate::bytes::bytes_copy(pairs[i].0.as_slice());
        let v = crate::bytes::bytes_copy(pairs[i].1.as_slice());
        r.push((k, v));
        i = i + 1;
    }
    assert(rows_of(r@) =~= rows_of(pairs@));
    r
}

/// Drop the pairs from `lo` up to `hi`.
pub fn drop_pairs(pairs: &mut Vec<Pair>, lo: usize, hi: usize)
    requires
        lo <= hi <= old(pairs).len(),
    ensures
        final(pairs)@ == old(pairs)@.take(lo as int) + old(pairs)@.skip(hi as int),
{
    let ghost start = pairs@;
    let mut n: usize = hi;
    while n > lo
        invariant
            lo <= n <= hi <= start.len(),
            pairs@ == start.take(n as int) + start.skip(hi as int),
        decreases n,
    {
        n = n - 1;
        pairs.remove(n as usize);
        assert(pairs@ =~= start.take(n as int) + start.skip(hi as int));
    }
}

} // verus!
