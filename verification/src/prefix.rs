//! Key prefixes: the rows that share one, and the first key behind all of them.

use vstd::prelude::*;
use crate::bytes::{lex_lt, starts_with};
use crate::bytes::{lemma_lex_asymmetric, lemma_lex_prefix, lemma_lex_total, lemma_lex_transitive};
use crate::rows::{before_cut, front, rank, row_lt, sorted_rows, Row};
use crate::rows::{lemma_cut, lemma_cut_unique};

verus! {

/// The rows whose key starts with `prefix`, in order.
pub open spec fn matching(rows: Seq<Row>, prefix: Seq<u8>) -> Seq<Row>
    decreases rows.len(),
{
    if rows.len() == 0 {
        Seq::empty()
    } else if starts_with(rows.last().0, prefix) {
        matching(rows.drop_last(), prefix).push(rows.last())
    } else {
        matching(rows.drop_last(), prefix)
    }
}

/// The smallest byte string greater than every string with this prefix, or `None` when the
/// prefix is all 0xFF.
pub open spec fn successor(prefix: Seq<u8>) -> Option<Seq<u8>>
    decreases prefix.len(),
{
    if prefix.len() == 0 {
        None
    } else if prefix.last() == 0xFF {
        successor(prefix.drop_last())
    } else {
        Some(prefix.drop_last().push((prefix.last() + 1) as u8))
    }
}

/// A key that starts with `p` is `p` and a rest.
pub proof fn lemma_split_prefix_key(k: Seq<u8>, p: Seq<u8>)
    requires
        starts_with(k, p),
    ensures
        k == p + k.skip(p.len() as int),
        !lex_lt(k, p),
{
    let x = k.skip(p.len() as int);
    assert(k =~= p + x);
    assert(p =~= p + Seq::<u8>::empty());
    lemma_lex_prefix(p, x, Seq::empty());
}

/// Extending a key starts with it.
pub proof fn lemma_extension_starts(p: Seq<u8>, x: Seq<u8>)
    ensures
        starts_with(p + x, p),
{
    assert((p + x).take(p.len() as int) =~= p);
}

/// What lies below `p` lies below every extension of `p`.
proof fn lemma_below_extension(k: Seq<u8>, p: Seq<u8>, y: Seq<u8>)
    requires
        lex_lt(k, p),
    ensures
        lex_lt(k, p + y),
    decreases p.len(),
{
    assert((p + y)[0] == p[0]);
    if k.len() > 0 && k[0] == p[0] {
        lemma_below_extension(k.skip(1), p.skip(1), y);
        assert((p + y).skip(1) =~= p.skip(1) + y);
    }
}

/// What lies above `p` without starting with it lies above every extension of `p`, and so does
/// everything above that.
proof fn lemma_above_extension(k: Seq<u8>, p: Seq<u8>, y: Seq<u8>)
    requires
        lex_lt(p, k),
        !starts_with(k, p),
    ensures
        lex_lt(p + y, k),
    decreases p.len(),
{
    if p.len() == 0 {
        assert(k.take(0) =~= p);
    } else {
        assert((p + y)[0] == p[0]);
        if k[0] == p[0] {
            if starts_with(k.skip(1), p.skip(1)) {
                assert(k.take(p.len() as int) =~= seq![k[0]] + k.skip(1).take(p.len() - 1));
                assert(p =~= seq![p[0]] + p.skip(1));
            }
            lemma_above_extension(k.skip(1), p.skip(1), y);
            assert((p + y).skip(1) =~= p.skip(1) + y);
        }
    }
}

/// The keys that start with `prefix` are exactly those from the prefix up to its successor.
pub proof fn law_successor(prefix: Seq<u8>, k: Seq<u8>)
    ensures
        starts_with(k, prefix) <==> (!lex_lt(k, prefix) && (successor(prefix) matches Some(s)
            ==> lex_lt(k, s))),
    decreases prefix.len(),
{
    if prefix.len() == 0 {
        assert(k.take(0) =~= prefix);
    } else {
        let p = prefix.drop_last();
        let b = prefix.last();
        assert(prefix =~= p + seq![b]);
        law_successor(p, k);
        if starts_with(k, p) {
            lemma_split_prefix_key(k, p);
            let x = k.skip(p.len() as int);
            assert(starts_with(k, prefix) ==> x.len() > 0 && x[0] == b) by {
                if starts_with(k, prefix) {
                    assert(k.take(prefix.len() as int)[p.len() as int] == prefix[p.len() as int]);
                }
            }
            if x.len() > 0 && x[0] == b {
                assert(k.take(prefix.len() as int) =~= prefix);
            }
            assert(starts_with(k, prefix) <==> x.len() > 0 && x[0] == b);
            lemma_lex_prefix(p, x, seq![b]);
            assert(lex_lt(k, prefix) == lex_lt(x, seq![b]));
            assert(!lex_lt(x.skip(1), seq![b].skip(1)));
            if b < 0xFF {
                let c = (b + 1) as u8;
                let s = p.push(c);
                assert(s =~= p + seq![c]);
                lemma_lex_prefix(p, x, seq![c]);
                assert(!lex_lt(x.skip(1), seq![c].skip(1)));
            }
        } else {
            if starts_with(k, prefix) {
                assert(k.take(p.len() as int) =~= k.take(prefix.len() as int).take(p.len() as int));
                assert(prefix.take(p.len() as int) =~= p);
            }
            lemma_lex_total(k, p);
            assert(starts_with(p, p)) by {
                assert(p.take(p.len() as int) =~= p);
            }
            if lex_lt(k, p) {
                lemma_below_extension(k, p, seq![b]);
            } else {
                if b < 0xFF {
                    let c = (b + 1) as u8;
                    lemma_above_extension(k, p, seq![c]);
                    assert(p.push(c) =~= p + seq![c]);
                    lemma_lex_asymmetric(p + seq![c], k);
                }
            }
        }
    }
}

/// Keys between two that start with the prefix start with it.
proof fn lemma_above_prefix(k: Seq<u8>, k2: Seq<u8>, p: Seq<u8>)
    requires
        !lex_lt(k, p),
        !starts_with(k, p),
        lex_lt(k, k2),
    ensures
        !starts_with(k2, p),
{
    law_successor(p, k);
    law_successor(p, k2);
    if let Some(s) = successor(p) {
        lemma_lex_total(k, s);
        if lex_lt(k2, s) {
            if k == s {
                lemma_lex_asymmetric(k, k2);
            } else {
                lemma_lex_transitive(s, k, k2);
                lemma_lex_asymmetric(s, k2);
            }
        }
    }
}

/// The rows with a prefix are the stretch that starts at the prefix's rank.
pub proof fn lemma_matching(rows: Seq<Row>, dup: bool, prefix: Seq<u8>)
    requires
        sorted_rows(rows, dup),
    ensures
        rank(rows, prefix) + matching(rows, prefix).len() <= rows.len(),
        matching(rows, prefix) == rows.subrange(
            rank(rows, prefix) as int,
            (rank(rows, prefix) + matching(rows, prefix).len()) as int,
        ),
        forall|i: int| #![trigger rows[i]]
            0 <= i < rows.len() ==> (starts_with(rows[i].0, prefix) <==> rank(rows, prefix) <= i
                < rank(rows, prefix) + matching(rows, prefix).len()),
    decreases rows.len(),
{
    if rows.len() > 0 {
        let init = rows.drop_last();
        let last = rows.last();
        assert(sorted_rows(init, dup)) by {
            assert forall|i: int, j: int| #![trigger init[i], init[j]]
                0 <= i < j < init.len() implies row_lt(init[i], init[j]) && (!dup ==> lex_lt(
                init[i].0,
                init[j].0,
            )) by {
                assert(init[i] == rows[i] && init[j] == rows[j]);
            }
        }
        lemma_matching(init, dup, prefix);
        lemma_cut(rows, dup, front(prefix));
        lemma_cut(init, dup, front(prefix));
        let r = rank(init, prefix);
        let m = matching(init, prefix);
        if starts_with(last.0, prefix) {
            lemma_split_prefix_key(last.0, prefix);
            assert(rank(rows, prefix) == r);
            // Every row between the rank and the last one starts with the prefix.
            if r + m.len() < init.len() {
                let i = (r + m.len()) as int;
                assert(init[i] == rows[i]);
                assert(row_lt(rows[i], rows[rows.len() - 1]));
                assert(!starts_with(rows[i].0, prefix));
                assert(!lex_lt(rows[i].0, prefix));
                if rows[i].0 != last.0 {
                    lemma_above_prefix(rows[i].0, last.0, prefix);
                }
            }
            assert(m.push(last) =~= rows.subrange(r as int, (r + m.len() + 1) as int));
            assert forall|i: int| #![trigger rows[i]] 0 <= i < rows.len() implies (starts_with(
                rows[i].0,
                prefix,
            ) <==> rank(rows, prefix) <= i < rank(rows, prefix) + matching(rows, prefix).len()) by {
                if i < init.len() {
                    assert(init[i] == rows[i]);
                }
            }
        } else {
            if before_cut(last, front(prefix)) {
                assert(rank(rows, prefix) == r + 1);
                assert(rank(rows, prefix) <= rows.len());
                // All rows lie below the prefix.
                if m.len() > 0 {
                    assert(init[r as int] == rows[r as int]);
                    assert(before_cut(rows[r as int], front(prefix)));
                    assert(starts_with(init[r as int].0, prefix));
                    lemma_split_prefix_key(init[r as int].0, prefix);
                }
                if r < init.len() {
                    assert(init[r as int] == rows[r as int]);
                    assert(before_cut(rows[r as int], front(prefix)));
                }
            }
            assert(m =~= rows.subrange(
                rank(rows, prefix) as int,
                (rank(rows, prefix) + m.len()) as int,
            ));
            assert forall|i: int| #![trigger rows[i]] 0 <= i < rows.len() implies (starts_with(
                rows[i].0,
                prefix,
            ) <==> rank(rows, prefix) <= i < rank(rows, prefix) + matching(rows, prefix).len()) by {
                if i < init.len() {
                    assert(init[i] == rows[i]);
                }
            }
        }
    }
}

/// The number of rows with a prefix is a difference of two ranks.
pub proof fn lemma_matching_count(rows: Seq<Row>, dup: bool, prefix: Seq<u8>)
    requires
        sorted_rows(rows, dup),
    ensures
        rank(rows, prefix) + matching(rows, prefix).len() == match successor(prefix) {
            Some(s) => rank(rows, s),
            None => rows.len(),
        },
{
    lemma_matching(rows, dup, prefix);
    lemma_cut(rows, dup, front(prefix));
    let end = rank(rows, prefix) + matching(rows, prefix).len();
    match successor(prefix) {
        Some(s) => {
            assert forall|i: int| 0 <= i < end implies before_cut(
                #[trigger] rows[i],
                front(s),
            ) by {
                law_successor(prefix, rows[i].0);
                if i < rank(rows, prefix) {
                    assert(lex_lt(rows[i].0, prefix));
                    lemma_successor_above(prefix);
                    lemma_lex_transitive(rows[i].0, prefix, s);
                }
            }
            assert forall|i: int| end <= i < rows.len() implies !before_cut(
                #[trigger] rows[i],
                front(s),
            ) by {
                law_successor(prefix, rows[i].0);
            }
            lemma_cut_unique(rows, dup, front(s), end);
        },
        None => {
            if end < rows.len() {
                law_successor(prefix, rows[end as int].0);
                assert(!before_cut(rows[end as int], front(prefix)));
            }
        },
    }
}

/// The successor lies above the prefix itself.
pub proof fn lemma_successor_above(prefix: Seq<u8>)
    ensures
        successor(prefix) matches Some(s) ==> lex_lt(prefix, s),
{
    law_successor(prefix, prefix);
    assert(prefix.take(prefix.len() as int) =~= prefix);
}

/// The smallest byte string greater than every string with this prefix, or `None` when the
/// prefix is all 0xFF.
pub fn prefix_successor(prefix: &[u8]) -> (r: Option<Vec<u8>>)
    ensures
        match r {
            Some(s) => successor(prefix@) == Some(s@),
            None => successor(prefix@) is None,
        },
{
    let mut n: usize = prefix.len();
    assert(prefix@.take(n as int) =~= prefix@);
    while n > 0
        invariant
            n <= prefix.len(),
            successor(prefix@) == successor(prefix@.take(n as int)),
        decreases n,
    {
        let ghost part = prefix@.take(n as int);
        assert(part.drop_last() =~= prefix@.take(n - 1));
        assert(part.last() == prefix@[n - 1]);
        let last = prefix[n - 1];
        if last == 0xFF {
            n = n - 1;
        } else {
            let mut s = crate::bytes::slice_of(prefix, 0, n - 1);
            assert(prefix@.subrange(0, n - 1) =~= prefix@.take(n - 1));
            s.push(last + 1);
            return Some(s);
        }
    }
    None
}

} // verus!
