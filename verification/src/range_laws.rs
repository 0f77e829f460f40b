//! Laws of range scans between two bounds: which datoms a slice holds.

use vstd::prelude::*;
use crate::bytes::{be_bytes, lex_lt, starts_with};
use crate::bytes::{
    lemma_lex_asymmetric, lemma_lex_irreflexive, lemma_lex_prefix, lemma_lex_total,
    lemma_lex_transitive,
};
use crate::codec::{encoding, storable, value_lt, Datum, GIANT_THRESHOLD};
use crate::codec::{law_byte_order_is_value_order, law_encoding_is_prefix_free};
use crate::prefix::{law_successor, successor};
use crate::rows::{before_cut, front, has_key, rank, sorted_rows, Row};
use crate::rows::lemma_cut;
use crate::store_laws::{giant_stored, has_datom, key_of_datom, keyed, sound};
use crate::store_laws::{
    law_key_form_is_unique, law_key_form_round_trip, lemma_aids_apart, lemma_all_entries,
    lemma_entry_complete, lemma_entry_sound, lemma_index_sorted, lemma_key_names_datom,
    lemma_one_key, lemma_u32_bytes, lemma_u64_bytes, lemma_u64_order,
};
use crate::store_model::{
    ave_key, bound_prefix, eav_key, entry_datom, find_attr, giant_key, giant_raw, key_range,
    range_counted, range_rows, read_key, sliced, vae_key, BoundView, DatomView, Db, Fault, Index,
    Indexes,
};

verus! {

/// A key lies between two prefixes: at or above the low one, and not an extension of it where that
/// bound is open; below the high one, or an extension of it where that bound is closed. An empty
/// prefix bounds nothing.
pub open spec fn lies_between(
    k: Seq<u8>,
    lo: Seq<u8>,
    lo_closed: bool,
    hi: Seq<u8>,
    hi_closed: bool,
) -> bool {
    &&& lo.len() > 0 ==> !lex_lt(k, lo) && (!lo_closed ==> !starts_with(k, lo))
    &&& hi.len() > 0 ==> lex_lt(k, hi) || (hi_closed && starts_with(k, hi))
}

proof fn lemma_lies_between(
    k: Seq<u8>,
    lo: Seq<u8>,
    lo_closed: bool,
    hi: Seq<u8>,
    hi_closed: bool,
)
    ensures
        lies_between(k, lo, lo_closed, hi, hi_closed) == ({
            let lo_key = if lo_closed || lo.len() == 0 {
                Some(lo)
            } else {
                successor(lo)
            };
            let hi_key = if hi.len() == 0 {
                None
            } else if hi_closed {
                successor(hi)
            } else {
                Some(hi)
            };
            &&& lo_key matches Some(l) && !lex_lt(k, l)
            &&& hi_key matches Some(h) ==> lex_lt(k, h)
        }),
{
    law_successor(lo, k);
    law_successor(hi, k);
    if lo.len() > 0 && !lo_closed {
        if let Some(s) = successor(lo) {
            crate::prefix::lemma_successor_above(lo);
            lemma_lex_total(k, lo);
            if !lex_lt(k, s) && lex_lt(k, lo) {
                lemma_lex_transitive(k, lo, s);
            }
        }
    }
    if hi.len() > 0 && hi_closed {
        if let Some(s) = successor(hi) {
            crate::prefix::lemma_successor_above(hi);
            if lex_lt(k, hi) {
                lemma_lex_transitive(k, hi, s);
            }
        }
    }
}

/// The rows of a range are a stretch of the index, and a row of the index is in it exactly where its
/// key lies between the prefixes of the bounds.
proof fn lemma_range_rows(
    db: Db,
    index: Index,
    low: BoundView,
    high: BoundView,
    lo: Seq<u8>,
    hi: Seq<u8>,
) -> (r: (int, int))
    requires
        sorted_rows(db.ix.index(index), false),
        bound_prefix(db, index, low) == Ok::<Option<Seq<u8>>, Fault>(Some(lo)),
        bound_prefix(db, index, high) == Ok::<Option<Seq<u8>>, Fault>(Some(hi)),
    ensures
        key_range(db, index, low, high) is Ok,
        0 <= r.0 <= r.1 <= db.ix.index(index).len(),
        range_rows(db.ix.index(index), key_range(db, index, low, high)->Ok_0)
            == db.ix.index(index).subrange(r.0, r.1),
        forall|i: int|
            0 <= i < db.ix.index(index).len() ==> (r.0 <= i < r.1 <==> lies_between(
                (#[trigger] db.ix.index(index)[i]).0,
                lo,
                low.closed,
                hi,
                high.closed,
            )),
{
    let rows = db.ix.index(index);
    let n = rows.len() as int;
    let range = key_range(db, index, low, high)->Ok_0;
    let lo_key = if low.closed || lo.len() == 0 {
        Some(lo)
    } else {
        successor(lo)
    };
    let hi_key = if hi.len() == 0 {
        None
    } else if high.closed {
        successor(hi)
    } else {
        Some(hi)
    };
    assert forall|i: int| 0 <= i < n implies (lies_between(
        (#[trigger] rows[i]).0,
        lo,
        low.closed,
        hi,
        high.closed,
    ) <==> (lo_key matches Some(l) && !lex_lt(rows[i].0, l) && (hi_key matches Some(h) ==> lex_lt(
        rows[i].0,
        h,
    )))) by {
        lemma_lies_between(rows[i].0, lo, low.closed, hi, high.closed);
    }
    match lo_key {
        None => {
            assert(rows.subrange(0, 0) =~= Seq::empty());
            (0, 0)
        },
        Some(l) => {
            lemma_cut(rows, false, front(l));
            let from = rank(rows, l) as int;
            assert forall|i: int| 0 <= i < n implies (from <= i <==> !lex_lt(
                (#[trigger] rows[i]).0,
                l,
            )) by {
                assert(before_cut(rows[i], front(l)) <==> i < from);
            }
            match hi_key {
                None => {
                    if from == n {
                        assert(rows.subrange(n, n) =~= Seq::empty());
                    }
                    (from, n)
                },
                Some(h) => {
                    lemma_cut(rows, false, front(h));
                    let to = rank(rows, h) as int;
                    assert forall|i: int| 0 <= i < n implies (i < to <==> lex_lt(
                        (#[trigger] rows[i]).0,
                        h,
                    )) by {
                        assert(before_cut(rows[i], front(h)) <==> i < to);
                    }
                    if lex_lt(l, h) {
                        if from < to {
                            (from, to)
                        } else {
                            assert(rows.subrange(from, from) =~= Seq::empty());
                            (from, from)
                        }
                    } else {
                        assert forall|i: int|
                            #![trigger rows[i]]
                            0 <= i < n implies !(from <= i < to) by {
                            if from <= i < to {
                                assert(!lex_lt(rows[i].0, l) && lex_lt(rows[i].0, h));
                                lemma_lex_total(l, h);
                                lemma_lex_total(rows[i].0, l);
                                if l == h {
                                } else {
                                    lemma_lex_transitive(rows[i].0, h, l);
                                }
                            }
                        }
                        assert(rows.subrange(from, from) =~= Seq::empty());
                        (from, from)
                    }
                },
            }
        },
    }
}

/// The datom has a key in the index, and it lies between the prefixes.
pub open spec fn keyed_between(
    db: Db,
    index: Index,
    d: DatomView,
    lo: Seq<u8>,
    lo_closed: bool,
    hi: Seq<u8>,
    hi_closed: bool,
) -> bool {
    exists|k: Seq<u8>| #[trigger]
        key_of_datom(db, index, k, d) && lies_between(k, lo, lo_closed, hi, hi_closed)
}

/// The key of the first datom in the index is below that of the second.
pub open spec fn keys_ascend(db: Db, index: Index, c: DatomView, d: DatomView) -> bool {
    exists|k: Seq<u8>, l: Seq<u8>| #[trigger]
        key_of_datom(db, index, k, c) && #[trigger] key_of_datom(db, index, l, d) && lex_lt(k, l)
}

/// Between any two bounds of an index, a slice holds exactly the datoms of the store whose key in
/// that index lies between the bounds' prefixes, each once and in the order of the keys; counting
/// the range gives their number. Only references have a key in `vae`.
pub proof fn law_slice_between_bounds(
    db: Db,
    index: Index,
    low: BoundView,
    high: BoundView,
    lo: Seq<u8>,
    hi: Seq<u8>,
)
    requires
        sound(db),
        bound_prefix(db, index, low) == Ok::<Option<Seq<u8>>, Fault>(Some(lo)),
        bound_prefix(db, index, high) == Ok::<Option<Seq<u8>>, Fault>(Some(hi)),
    ensures
        sliced(db, index, low, high, None, false) matches Ok(ds) && {
            &&& ds.no_duplicates()
            &&& forall|d: DatomView| #[trigger]
                ds.contains(d) <==> has_datom(db, d) && keyed_between(
                    db,
                    index,
                    d,
                    lo,
                    low.closed,
                    hi,
                    high.closed,
                )
            &&& forall|i: int, j: int|
                #![trigger ds[i], ds[j]]
                0 <= i < j < ds.len() ==> keys_ascend(db, index, ds[i], ds[j])
            &&& range_counted(db, index, low, high) == Ok::<nat, Fault>(ds.len())
        },
{
    let rows = db.ix.index(index);
    lemma_index_sorted(db.ix, index);
    let (from, to) = lemma_range_rows(db, index, low, high, lo, hi);
    let found = rows.subrange(from, to);
    assert forall|i: int| 0 <= i < found.len() implies entry_datom(
        db,
        index,
        (#[trigger] found[i]).0,
    ) is Ok && has_datom(db, entry_datom(db, index, found[i].0)->Ok_0) && key_of_datom(
        db,
        index,
        found[i].0,
        entry_datom(db, index, found[i].0)->Ok_0,
    ) by {
        assert(found[i] == rows[from + i]);
        assert(has_key(rows, rows[from + i].0));
        lemma_entry_sound(db, index, found[i].0);
    }
    lemma_all_entries(db, index, found);
    let ds = sliced(db, index, low, high, None, false)->Ok_0;
    assert(ds.len() == found.len());
    assert(decoded(db, index, found, ds));
    lemma_decoded_in_order(db, index, found, ds);
    lemma_decoded_members(db, index, from, to, ds, lo, low.closed, hi, high.closed);
}

/// The datoms are those of the rows, one for one.
spec fn decoded(db: Db, index: Index, found: Seq<Row>, ds: Seq<DatomView>) -> bool {
    &&& ds.len() == found.len()
    &&& forall|i: int|
        #![trigger ds[i]]
        0 <= i < ds.len() ==> has_datom(db, ds[i]) && key_of_datom(db, index, found[i].0, ds[i])
}

proof fn lemma_decoded_in_order(db: Db, index: Index, found: Seq<Row>, ds: Seq<DatomView>)
    requires
        sound(db),
        sorted_rows(found, false),
        decoded(db, index, found, ds),
    ensures
        ds.no_duplicates(),
        forall|i: int, j: int|
            #![trigger ds[i], ds[j]]
            0 <= i < j < ds.len() ==> keys_ascend(db, index, ds[i], ds[j]),
{
    assert forall|i: int, j: int| #![trigger ds[i], ds[j]] 0 <= i < j < ds.len() implies ds[i]
        != ds[j] && keys_ascend(db, index, ds[i], ds[j]) by {
        let k = found[i].0;
        let l = found[j].0;
        assert(lex_lt(k, l));
        assert(key_of_datom(db, index, k, ds[i]) && key_of_datom(db, index, l, ds[j]));
        if ds[i] == ds[j] {
            lemma_one_key(db, index, k, l, ds[i]);
            lemma_lex_irreflexive(k);
        }
    }
}

proof fn lemma_decoded_members(
    db: Db,
    index: Index,
    from: int,
    to: int,
    ds: Seq<DatomView>,
    lo: Seq<u8>,
    lo_closed: bool,
    hi: Seq<u8>,
    hi_closed: bool,
)
    requires
        sound(db),
        0 <= from <= to <= db.ix.index(index).len(),
        decoded(db, index, db.ix.index(index).subrange(from, to), ds),
        forall|i: int|
            0 <= i < db.ix.index(index).len() ==> (from <= i < to <==> lies_between(
                (#[trigger] db.ix.index(index)[i]).0,
                lo,
                lo_closed,
                hi,
                hi_closed,
            )),
    ensures
        forall|d: DatomView| #[trigger]
            ds.contains(d) <==> has_datom(db, d) && keyed_between(
                db,
                index,
                d,
                lo,
                lo_closed,
                hi,
                hi_closed,
            ),
{
    let rows = db.ix.index(index);
    let found = rows.subrange(from, to);
    assert forall|d: DatomView| #[trigger] ds.contains(d) implies has_datom(db, d) && keyed_between(
        db,
        index,
        d,
        lo,
        lo_closed,
        hi,
        hi_closed,
    ) by {
        let i = choose|i: int| 0 <= i < ds.len() && ds[i] == d;
        assert(found[i] == rows[from + i]);
        assert(key_of_datom(db, index, found[i].0, ds[i]));
        assert(lies_between(rows[from + i].0, lo, lo_closed, hi, hi_closed));
    }
    assert forall|d: DatomView| has_datom(db, d) && keyed_between(
        db,
        index,
        d,
        lo,
        lo_closed,
        hi,
        hi_closed,
    ) implies #[trigger] ds.contains(d) by {
        let k = choose|k: Seq<u8>| #[trigger]
            key_of_datom(db, index, k, d) && lies_between(k, lo, lo_closed, hi, hi_closed);
        assert(index == Index::Vae ==> d.v is Ref) by {
            reveal(key_of_datom);
        }
        let own = lemma_entry_complete(db, index, d);
        lemma_one_key(db, index, k, own, d);
        let j = choose|j: int| 0 <= j < rows.len() && (#[trigger] rows[j]).0 == k;
        assert(from <= j < to);
        let i = j - from;
        assert(found[i] == rows[j]);
        assert(key_of_datom(db, index, found[i].0, ds[i]));
        lemma_key_names_datom(db, index, k, ds[i], d);
    }
}

/// A bound on the values of an attribute.
pub open spec fn value_bound(a: Seq<char>, v: Datum, closed: bool) -> BoundView {
    BoundView { e: None, a: Some(a), v: Some(v), closed }
}

/// One value is below another, or is that one where they may meet.
pub open spec fn value_below(v: Datum, w: Datum, may_meet: bool) -> bool {
    value_lt(v, w) || (may_meet && v == w)
}

proof fn lemma_inline_key(db: Db, d: DatomView, k: Seq<u8>)
    requires
        key_of_datom(db, Index::Ave, k, d),
        encoding(d.v).len() <= GIANT_THRESHOLD,
    ensures
        find_attr(db.attrs, d.a) matches Some((aid, _)) && storable(d.v) && k == be_bytes(
            aid as nat,
            4,
        ) + (encoding(d.v) + be_bytes(d.e as nat, 8)),
{
    reveal(key_of_datom);
    let aid = (find_attr(db.attrs, d.a)->0).0;
    let x = choose|x: Seq<u8>| #[trigger] keyed(db.ix, d.v, x) && k == ave_key(aid, x, d.e);
    assert(k =~= be_bytes(aid as nat, 4) + (encoding(d.v) + be_bytes(d.e as nat, 8)));
}

/// Where the attribute's number and then the value lead a key.
proof fn lemma_value_in_key(p: Seq<u8>, v: Datum, w: Datum, e: Seq<u8>)
    requires
        storable(v),
        storable(w),
    ensures
        starts_with(p + (encoding(v) + e), p + encoding(w)) <==> v == w,
        lex_lt(p + (encoding(v) + e), p + encoding(w)) <==> value_lt(v, w),
        v == w ==> !value_lt(v, w),
{
    let x = encoding(v);
    let y = encoding(w);
    let k = p + (x + e);
    let b = p + y;
    lemma_lex_prefix(p, x + e, y);
    if v == w {
        assert(k.take(b.len() as int) =~= b);
        lemma_not_below_itself(y, e);
        lemma_value_irreflexive(v);
    } else {
        law_byte_order_is_value_order(v, w, e, Seq::empty());
        assert(y + Seq::<u8>::empty() =~= y);
        if starts_with(k, b) {
            let more = k.skip(b.len() as int);
            assert(k =~= b + more);
            assert(x + e =~= k.skip(p.len() as int));
            assert(y + more =~= k.skip(p.len() as int));
            law_encoding_is_prefix_free(v, w, e, more);
        }
    }
}

proof fn lemma_not_below_itself(y: Seq<u8>, e: Seq<u8>)
    ensures
        !lex_lt(y + e, y),
    decreases y.len(),
{
    if y.len() > 0 {
        lemma_not_below_itself(y.skip(1), e);
        assert((y + e).skip(1) =~= y.skip(1) + e);
        assert((y + e)[0] == y[0]);
    }
}

proof fn lemma_value_irreflexive(v: Datum)
    requires
        storable(v),
    ensures
        !value_lt(v, v),
{
    if value_lt(v, v) {
        crate::codec::law_encoding_keeps_order(v, v);
        crate::bytes::lemma_split_orders(encoding(v), encoding(v), Seq::empty(), Seq::empty());
        assert(encoding(v) + Seq::<u8>::empty() =~= encoding(v));
        lemma_lex_irreflexive(encoding(v));
    }
}

proof fn lemma_other_attr(a: u32, b: u32, x: Seq<u8>, y: Seq<u8>)
    requires
        a != b,
    ensures
        lex_lt(be_bytes(a as nat, 4) + x, be_bytes(b as nat, 4) + y) <==> a < b,
        !starts_with(be_bytes(a as nat, 4) + x, be_bytes(b as nat, 4) + y),
{
    let p = be_bytes(a as nat, 4);
    let q = be_bytes(b as nat, 4);
    lemma_u32_bytes(a);
    lemma_u32_bytes(b);
    reveal_with_fuel(crate::bytes::pow256, 5);
    if a < b {
        crate::bytes::lemma_be_order(a as nat, b as nat, 4);
        crate::bytes::lemma_split_orders(p, q, x, y);
    } else {
        crate::bytes::lemma_be_order(b as nat, a as nat, 4);
        crate::bytes::lemma_split_orders(q, p, y, x);
        lemma_lex_asymmetric(q + y, p + x);
    }
    if starts_with(p + x, q + y) {
        let t = (p + x).take((q + y).len() as int);
        assert(t.take(4) =~= (p + x).take(4));
        assert((p + x).take(4) =~= p);
        assert((q + y).take(4) =~= q);
    }
}

/// A slice between two values of an attribute holds exactly the attribute's datoms whose value lies
/// between them: a closed bound holds the datoms with its own value, an open one leaves them out.
/// Values that are stored apart for their length are not spoken of.
pub proof fn law_slice_between_values(
    db: Db,
    a: Seq<char>,
    v: Datum,
    v_closed: bool,
    w: Datum,
    w_closed: bool,
    d: DatomView,
)
    requires
        sound(db),
        find_attr(db.attrs, a) is Some,
        storable(v),
        storable(w),
        encoding(v).len() <= GIANT_THRESHOLD,
        encoding(w).len() <= GIANT_THRESHOLD,
        encoding(d.v).len() <= GIANT_THRESHOLD,
    ensures
        sliced(
            db,
            Index::Ave,
            value_bound(a, v, v_closed),
            value_bound(a, w, w_closed),
            None,
            false,
        ) matches Ok(ds) && (ds.contains(d) <==> has_datom(db, d) && d.a == a && value_below(
            v,
            d.v,
            v_closed,
        ) && value_below(d.v, w, w_closed)),
{
    let aid = (find_attr(db.attrs, a)->0).0;
    let p = be_bytes(aid as nat, 4);
    let lo = p + encoding(v);
    let hi = p + encoding(w);
    let low = value_bound(a, v, v_closed);
    let high = value_bound(a, w, w_closed);
    lemma_u32_bytes(aid);
    law_slice_between_bounds(db, Index::Ave, low, high, lo, hi);
    let ds = sliced(db, Index::Ave, low, high, None, false)->Ok_0;
    if has_datom(db, d) {
        let k = lemma_entry_complete(db, Index::Ave, d);
        lemma_inline_key(db, d, k);
        let bid = (find_attr(db.attrs, d.a)->0).0;
        let e = be_bytes(d.e as nat, 8);
        let q = be_bytes(bid as nat, 4);
        crate::store_laws::lemma_aids_apart(db.attrs, d.a, a);
        crate::codec::law_values_are_ordered(d.v, v);
        crate::codec::law_values_are_ordered(d.v, w);
        if d.a == a {
            lemma_value_in_key(p, d.v, v, e);
            lemma_value_in_key(p, d.v, w, e);
            lemma_asymmetric_values(d.v, v);
            lemma_asymmetric_values(d.v, w);
        } else {
            lemma_other_attr(bid, aid, encoding(d.v) + e, encoding(v));
            lemma_other_attr(bid, aid, encoding(d.v) + e, encoding(w));
        }
        assert(lies_between(k, lo, v_closed, hi, w_closed) <==> d.a == a && value_below(
            v,
            d.v,
            v_closed,
        ) && value_below(d.v, w, w_closed));
        if ds.contains(d) {
            let l = choose|l: Seq<u8>| #[trigger]
                key_of_datom(db, Index::Ave, l, d) && lies_between(l, lo, v_closed, hi, w_closed);
            lemma_one_key(db, Index::Ave, k, l, d);
        }
    }
}

proof fn lemma_stored_key(ix: Indexes, v: Datum, x: Seq<u8>)
    requires
        keyed(ix, v, x),
    ensures
        read_key(ix, v) == Ok::<Seq<u8>, Fault>(x),
{
    if encoding(v).len() > GIANT_THRESHOLD {
        let (tag, raw) = giant_raw(v)->0;
        let id = choose|id: u64| #[trigger]
            giant_stored(ix, raw, id) && x == giant_key(tag, raw, id as nat);
        lemma_u64_bytes(id);
    }
}

/// The key of a datom starts with what its attribute and value bound.
proof fn lemma_value_leads_key(db: Db, d: DatomView, k: Seq<u8>, closed: bool, lo: Seq<u8>)
    requires
        key_of_datom(db, Index::Ave, k, d),
        bound_prefix(db, Index::Ave, value_bound(d.a, d.v, closed)) == Ok::<
            Option<Seq<u8>>,
            Fault,
        >(Some(lo)),
    ensures
        starts_with(k, lo),
        lo.len() > 0,
        !lex_lt(k, lo),
{
    reveal(key_of_datom);
    let aid = (find_attr(db.attrs, d.a)->0).0;
    let x = choose|x: Seq<u8>| #[trigger] keyed(db.ix, d.v, x) && k == ave_key(aid, x, d.e);
    lemma_stored_key(db.ix, d.v, x);
    lemma_u32_bytes(aid);
    assert(lo == be_bytes(aid as nat, 4) + x);
    assert(k =~= lo + be_bytes(d.e as nat, 8));
    assert(k.take(lo.len() as int) =~= lo);
    lemma_not_below_itself(lo, be_bytes(d.e as nat, 8));
}

/// A slice of `ave` from an attribute and a value on, the bound open, holds no datom of the attribute
/// with that value, up to whatever bound it goes; with the bound closed, it holds each of them that
/// the upper bound admits. This holds of values of any length.
pub proof fn law_slice_from_a_value(
    db: Db,
    v: Datum,
    closed: bool,
    lo: Seq<u8>,
    high: BoundView,
    hi: Seq<u8>,
    d: DatomView,
)
    requires
        sound(db),
        bound_prefix(db, Index::Ave, value_bound(d.a, v, closed)) == Ok::<
            Option<Seq<u8>>,
            Fault,
        >(Some(lo)),
        bound_prefix(db, Index::Ave, high) == Ok::<Option<Seq<u8>>, Fault>(Some(hi)),
        d.v == v,
    ensures
        sliced(db, Index::Ave, value_bound(d.a, v, closed), high, None, false) matches Ok(ds) && {
            &&& !closed ==> !ds.contains(d)
            &&& closed && has_datom(db, d) && hi.len() == 0 ==> ds.contains(d)
            &&& closed && has_datom(db, d) && high == value_bound(d.a, v, true) ==> ds.contains(d)
        },
{
    let low = value_bound(d.a, v, closed);
    law_slice_between_bounds(db, Index::Ave, low, high, lo, hi);
    let ds = sliced(db, Index::Ave, low, high, None, false)->Ok_0;
    if ds.contains(d) {
        let k = choose|k: Seq<u8>| #[trigger]
            key_of_datom(db, Index::Ave, k, d) && lies_between(k, lo, closed, hi, high.closed);
        lemma_value_leads_key(db, d, k, closed, lo);
    }
    if has_datom(db, d) && closed {
        let k = lemma_entry_complete(db, Index::Ave, d);
        lemma_value_leads_key(db, d, k, closed, lo);
        if hi.len() == 0 {
            assert(lies_between(k, lo, closed, hi, high.closed));
        }
        if high == value_bound(d.a, v, true) {
            lemma_value_leads_key(db, d, k, true, hi);
            assert(lies_between(k, lo, closed, hi, high.closed));
        }
    }
}

proof fn lemma_asymmetric_values(v: Datum, w: Datum)
    requires
        storable(v),
        storable(w),
    ensures
        !(value_lt(v, w) && value_lt(w, v)),
{
    if value_lt(v, w) && value_lt(w, v) {
        crate::codec::law_encoding_keeps_order(v, w);
        crate::codec::law_encoding_keeps_order(w, v);
        let none = Seq::<u8>::empty();
        crate::bytes::lemma_split_orders(encoding(v), encoding(w), none, none);
        crate::bytes::lemma_split_orders(encoding(w), encoding(v), none, none);
        lemma_lex_asymmetric(encoding(v) + none, encoding(w) + none);
    }
}

/// A bound on the entities.
pub open spec fn entity_bound(e: u64, closed: bool) -> BoundView {
    BoundView { e: Some(e), a: None, v: None, closed }
}

/// A slice between two entities holds exactly the datoms of the entities between them: a closed
/// bound holds those of its own entity, an open one leaves them out.
pub proof fn law_slice_between_entities(
    db: Db,
    e: u64,
    e_closed: bool,
    f: u64,
    f_closed: bool,
    d: DatomView,
)
    requires
        sound(db),
    ensures
        sliced(
            db,
            Index::Eav,
            entity_bound(e, e_closed),
            entity_bound(f, f_closed),
            None,
            false,
        ) matches Ok(ds) && (ds.contains(d) <==> has_datom(db, d) && (e < d.e || (e_closed && e
            == d.e)) && (d.e < f || (f_closed && d.e == f))),
{
    let lo = be_bytes(e as nat, 8);
    let hi = be_bytes(f as nat, 8);
    let low = entity_bound(e, e_closed);
    let high = entity_bound(f, f_closed);
    lemma_u64_bytes(e);
    lemma_u64_bytes(f);
    law_slice_between_bounds(db, Index::Eav, low, high, lo, hi);
    let ds = sliced(db, Index::Eav, low, high, None, false)->Ok_0;
    if has_datom(db, d) {
        let k = lemma_entry_complete(db, Index::Eav, d);
        lemma_entity_in_key(db, d, k, e);
        lemma_entity_in_key(db, d, k, f);
        if ds.contains(d) {
            let l = choose|l: Seq<u8>| #[trigger]
                key_of_datom(db, Index::Eav, l, d) && lies_between(l, lo, e_closed, hi, f_closed);
            lemma_one_key(db, Index::Eav, k, l, d);
        }
    }
}

proof fn lemma_entity_in_key(db: Db, d: DatomView, k: Seq<u8>, e: u64)
    requires
        key_of_datom(db, Index::Eav, k, d),
    ensures
        starts_with(k, be_bytes(e as nat, 8)) <==> d.e == e,
        lex_lt(k, be_bytes(e as nat, 8)) <==> d.e < e,
{
    reveal(key_of_datom);
    let aid = (find_attr(db.attrs, d.a)->0).0;
    let x = choose|x: Seq<u8>| #[trigger] keyed(db.ix, d.v, x) && k == eav_key(d.e, aid, x);
    lemma_leading_number(d.e, e, be_bytes(aid as nat, 4) + x);
    assert(k =~= be_bytes(d.e as nat, 8) + (be_bytes(aid as nat, 4) + x));
}

/// A number in front of a key decides.
proof fn lemma_leading_number(a: u64, b: u64, x: Seq<u8>)
    ensures
        starts_with(be_bytes(a as nat, 8) + x, be_bytes(b as nat, 8)) <==> a == b,
        lex_lt(be_bytes(a as nat, 8) + x, be_bytes(b as nat, 8)) <==> a < b,
{
    let p = be_bytes(a as nat, 8);
    let q = be_bytes(b as nat, 8);
    let none = Seq::<u8>::empty();
    lemma_u64_bytes(a);
    lemma_u64_bytes(b);
    assert((p + x).take(8) =~= p);
    assert(q + none =~= q);
    lemma_u64_order(a, b, x, none);
    lemma_u64_order(b, a, none, x);
    if b < a {
        lemma_lex_asymmetric(q, p + x);
    }
    if a == b {
        lemma_not_below_itself(p, x);
    }
}

/// A bound on the entities that are referred to.
pub open spec fn target_bound(t: u64, closed: bool) -> BoundView {
    BoundView { e: None, a: None, v: Some(Datum::Ref(t)), closed }
}

/// A slice between two entities that are referred to holds exactly the references to the entities
/// between them.
pub proof fn law_slice_between_targets(
    db: Db,
    s: u64,
    s_closed: bool,
    t: u64,
    t_closed: bool,
    d: DatomView,
)
    requires
        sound(db),
    ensures
        sliced(
            db,
            Index::Vae,
            target_bound(s, s_closed),
            target_bound(t, t_closed),
            None,
            false,
        ) matches Ok(ds) && (ds.contains(d) <==> has_datom(db, d) && (d.v matches Datum::Ref(u) && (s
            < u || (s_closed && s == u)) && (u < t || (t_closed && u == t)))),
{
    let lo = be_bytes(s as nat, 8);
    let hi = be_bytes(t as nat, 8);
    let low = target_bound(s, s_closed);
    let high = target_bound(t, t_closed);
    lemma_u64_bytes(s);
    lemma_u64_bytes(t);
    law_slice_between_bounds(db, Index::Vae, low, high, lo, hi);
    let ds = sliced(db, Index::Vae, low, high, None, false)->Ok_0;
    assert(ds.contains(d) ==> d.v is Ref) by {
        reveal(key_of_datom);
    }
    if has_datom(db, d) && d.v is Ref {
        let k = lemma_entry_complete(db, Index::Vae, d);
        let u = d.v->Ref_0;
        assert(find_attr(db.attrs, d.a) is Some && k == vae_key(
            u,
            (find_attr(db.attrs, d.a)->0).0,
            d.e,
        )) by {
            reveal(key_of_datom);
        }
        let aid = (find_attr(db.attrs, d.a)->0).0;
        let more = be_bytes(aid as nat, 4) + be_bytes(d.e as nat, 8);
        assert(k =~= be_bytes(u as nat, 8) + more);
        lemma_leading_number(u, s, more);
        lemma_leading_number(u, t, more);
        if ds.contains(d) {
            let l = choose|l: Seq<u8>| #[trigger]
                key_of_datom(db, Index::Vae, l, d) && lies_between(l, lo, s_closed, hi, t_closed);
            lemma_one_key(db, Index::Vae, k, l, d);
        }
    }
}

/// A slice without bounds holds every datom of the store; in `vae`, every reference.
pub proof fn law_slice_without_bounds(db: Db, index: Index, d: DatomView, c: bool, b: bool)
    requires
        sound(db),
    ensures
        ({
            let low = BoundView { e: None, a: None, v: None, closed: c };
            let high = BoundView { e: None, a: None, v: None, closed: b };
            sliced(db, index, low, high, None, false) matches Ok(ds) && (ds.contains(d)
                <==> has_datom(db, d) && (index == Index::Vae ==> d.v is Ref))
        }),
{
    let low = BoundView { e: None, a: None, v: None, closed: c };
    let high = BoundView { e: None, a: None, v: None, closed: b };
    law_slice_between_bounds(db, index, low, high, Seq::empty(), Seq::empty());
    let ds = sliced(db, index, low, high, None, false)->Ok_0;
    assert(ds.contains(d) && index == Index::Vae ==> d.v is Ref) by {
        reveal(key_of_datom);
    }
    if has_datom(db, d) && (index == Index::Vae ==> d.v is Ref) {
        let k = lemma_entry_complete(db, index, d);
        assert(lies_between(k, Seq::empty(), c, Seq::empty(), b));
    }
}

/// Each component that the bound names is the datom's.
pub open spec fn admits(b: BoundView, d: DatomView) -> bool {
    &&& b.e matches Some(e) ==> e == d.e
    &&& b.a matches Some(a) ==> a == d.a
    &&& b.v matches Some(v) ==> v == d.v
}

proof fn lemma_starts(p: Seq<u8>, q: Seq<u8>, x: Seq<u8>, y: Seq<u8>)
    requires
        p.len() == q.len(),
    ensures
        starts_with(p + x, q + y) <==> p == q && starts_with(x, y),
        starts_with(p + x, q) <==> p == q,
{
    if starts_with(p + x, q + y) {
        let t = (p + x).take((q + y).len() as int);
        assert(t.take(p.len() as int) =~= (p + x).take(p.len() as int));
        assert((p + x).take(p.len() as int) =~= p);
        assert((q + y).take(p.len() as int) =~= q);
        assert(x.take(y.len() as int) =~= y) by {
            assert forall|i: int| 0 <= i < y.len() implies x[i] == y[i] by {
                assert((q + y)[q.len() + i] == t[q.len() + i]);
            }
        }
    }
    if p == q && starts_with(x, y) {
        assert((p + x).take((q + y).len() as int) =~= q + y) by {
            assert forall|i: int| 0 <= i < y.len() implies x[i] == y[i] by {
                assert(x.take(y.len() as int)[i] == y[i]);
            }
        }
    }
    assert((p + x).take(p.len() as int) =~= p);
}

/// The value's form, whatever follows it, starts with the form of the value alone.
proof fn lemma_value_starts(ix: Indexes, v: Datum, x: Seq<u8>, more: Seq<u8>, w: Datum)
    requires
        keyed(ix, v, x),
        storable(w),
        encoding(w).len() <= GIANT_THRESHOLD,
    ensures
        starts_with(x + more, encoding(w)) <==> v == w,
        starts_with(x, encoding(w)) <==> v == w,
        v == w ==> x == encoding(w),
{
    let y = encoding(w);
    assert(keyed(ix, w, y));
    law_key_form_is_unique(ix, v, x, w, y);
    if starts_with(x + more, y) {
        let rest = (x + more).skip(y.len() as int);
        assert(x + more =~= y + rest);
        law_key_form_round_trip(ix, v, x, more);
        law_key_form_round_trip(ix, w, y, rest);
    }
    if v == w {
        assert((x + more).take(y.len() as int) =~= y);
        assert(x.take(y.len() as int) =~= y);
    }
}

/// A datom's key starts with the prefix of a bound exactly where the bound admits the datom.
#[verifier::rlimit(40)]
proof fn lemma_admitted(db: Db, index: Index, b: BoundView, p: Seq<u8>, d: DatomView, k: Seq<u8>)
    requires
        sound(db),
        key_of_datom(db, index, k, d),
        bound_prefix(db, index, b) == Ok::<Option<Seq<u8>>, Fault>(Some(p)),
        b.v matches Some(w) ==> storable(w) && encoding(w).len() <= GIANT_THRESHOLD,
    ensures
        starts_with(k, p) <==> admits(b, d),
{
    reveal(key_of_datom);
    let aid = (find_attr(db.attrs, d.a)->0).0;
    let e8 = be_bytes(d.e as nat, 8);
    let a4 = be_bytes(aid as nat, 4);
    lemma_u64_bytes(d.e);
    lemma_u32_bytes(aid);
    let none = Seq::<u8>::empty();
    assert(k.take(0) =~= none);
    if let Some(e) = b.e {
        lemma_u64_bytes(e);
    }
    if let Some(a) = b.a {
        if let Some((other, _)) = find_attr(db.attrs, a) {
            lemma_u32_bytes(other);
            lemma_aids_apart(db.attrs, d.a, a);
        }
    }
    match index {
        Index::Eav => {
            let x = choose|x: Seq<u8>| #[trigger] keyed(db.ix, d.v, x) && k == eav_key(d.e, aid, x);
            assert(k =~= e8 + (a4 + x));
            if let Some(e) = b.e {
                let f8 = be_bytes(e as nat, 8);
                lemma_starts(e8, f8, a4 + x, none);
                if let Some(a) = b.a {
                    let b4 = be_bytes((find_attr(db.attrs, a)->0).0 as nat, 4);
                    let y = match b.v {
                        Some(w) => encoding(w),
                        None => none,
                    };
                    assert(p =~= f8 + (b4 + y));
                    lemma_starts(e8, f8, a4 + x, b4 + y);
                    lemma_starts(a4, b4, x, y);
                    assert(x.take(0) =~= none);
                    if let Some(w) = b.v {
                        lemma_value_starts(db.ix, d.v, x, none, w);
                    }
                }
            }
        },
        Index::Ave => {
            let x = choose|x: Seq<u8>| #[trigger] keyed(db.ix, d.v, x) && k == ave_key(aid, x, d.e);
            assert(k =~= a4 + (x + e8));
            if let Some(a) = b.a {
                let b4 = be_bytes((find_attr(db.attrs, a)->0).0 as nat, 4);
                lemma_starts(a4, b4, x + e8, none);
                if let Some(w) = b.v {
                    let y = encoding(w);
                    lemma_value_starts(db.ix, d.v, x, e8, w);
                    lemma_starts(a4, b4, x + e8, y);
                    if let Some(e) = b.e {
                        let f8 = be_bytes(e as nat, 8);
                        assert(p =~= b4 + (y + f8));
                        lemma_starts(a4, b4, x + e8, y + f8);
                        if starts_with(x + e8, y + f8) {
                            let t = (x + e8).take((y + f8).len() as int);
                            assert(t.take(y.len() as int) =~= (x + e8).take(y.len() as int));
                            assert((y + f8).take(y.len() as int) =~= y);
                        }
                        if d.v == w {
                            lemma_starts(x, y, e8, f8);
                            assert(e8.take(8) =~= e8);
                        }
                    }
                }
            }
        },
        Index::Vae => {
            let t = d.v->Ref_0;
            let t8 = be_bytes(t as nat, 8);
            lemma_u64_bytes(t);
            assert(k =~= t8 + (a4 + e8));
            if let Some(Datum::Ref(u)) = b.v {
                let u8s = be_bytes(u as nat, 8);
                lemma_u64_bytes(u);
                lemma_starts(t8, u8s, a4 + e8, none);
                if let Some(a) = b.a {
                    let b4 = be_bytes((find_attr(db.attrs, a)->0).0 as nat, 4);
                    lemma_starts(t8, u8s, a4 + e8, b4);
                    lemma_starts(a4, b4, e8, none);
                    if let Some(e) = b.e {
                        let f8 = be_bytes(e as nat, 8);
                        assert(p =~= u8s + (b4 + f8));
                        lemma_starts(t8, u8s, a4 + e8, b4 + f8);
                        lemma_starts(a4, b4, e8, f8);
                        assert(e8.take(8) =~= e8);
                    }
                }
            }
        },
    }
}

/// The slice of one bound, from it to itself, holds exactly the datoms whose components are those
/// that it names; in `vae`, the references among them.
pub proof fn law_slice_of_a_bound(db: Db, index: Index, b: BoundView, p: Seq<u8>, d: DatomView)
    requires
        sound(db),
        b.closed,
        bound_prefix(db, index, b) == Ok::<Option<Seq<u8>>, Fault>(Some(p)),
        b.v matches Some(w) ==> storable(w) && encoding(w).len() <= GIANT_THRESHOLD,
    ensures
        sliced(db, index, b, b, None, false) matches Ok(ds) && (ds.contains(d) <==> has_datom(db, d)
            && admits(b, d) && (index == Index::Vae ==> d.v is Ref)),
{
    law_slice_between_bounds(db, index, b, b, p, p);
    let ds = sliced(db, index, b, b, None, false)->Ok_0;
    if ds.contains(d) {
        let k = choose|k: Seq<u8>| #[trigger]
            key_of_datom(db, index, k, d) && lies_between(k, p, true, p, true);
        lemma_admitted(db, index, b, p, d, k);
        assert(index == Index::Vae ==> d.v is Ref) by {
            reveal(key_of_datom);
        }
        if p.len() == 0 {
            assert(k.take(0) =~= p);
        }
    }
    if has_datom(db, d) && admits(b, d) && (index == Index::Vae ==> d.v is Ref) {
        let k = lemma_entry_complete(db, index, d);
        lemma_admitted(db, index, b, p, d, k);
        lemma_not_below_itself(p, k.skip(p.len() as int));
        assert(p + k.skip(p.len() as int) =~= k);
        assert(lies_between(k, p, true, p, true));
    }
}

/// A bound names its components from the front of the index on: one that skips a component, or that
/// bounds `vae` by a value which is no reference, is refused; one that names an attribute which the
/// store does not know bounds an empty slice.
pub proof fn law_bounds_have_no_gaps(db: Db, index: Index, b: BoundView)
    ensures
        ({
            let (first, second, third) = match index {
                Index::Eav => (b.e is Some, b.a is Some, b.v is Some),
                Index::Ave => (b.a is Some, b.v is Some, b.e is Some),
                Index::Vae => (b.v is Some, b.a is Some, b.e is Some),
            };
            let known = b.a matches Some(n) ==> find_attr(db.attrs, n) is Some;
            &&& (second || third) && !first ==> bound_prefix(db, index, b) is Err
            &&& third && !second && known ==> bound_prefix(db, index, b) is Err
            &&& index == Index::Vae && (b.v matches Some(v) && !(v is Ref)) ==> bound_prefix(
                db,
                index,
                b,
            ) is Err
            &&& !first && !second && !third ==> bound_prefix(db, index, b) == Ok::<
                Option<Seq<u8>>,
                Fault,
            >(Some(Seq::empty()))
            &&& bound_prefix(db, index, b) == Ok::<Option<Seq<u8>>, Fault>(None) ==> !known
        }),
{
}

} // verus!
