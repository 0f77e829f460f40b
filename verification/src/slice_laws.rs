//! Laws of range scans: how a slice, its reverse, its limit and its count belong together.

use vstd::prelude::*;
use crate::bytes::be_bytes;
use crate::prefix::{lemma_matching, lemma_matching_count, lemma_successor_above, matching};
use crate::prefix::successor;
use crate::rows::{rank, sorted_rows, Row};
use crate::store::ix_sorted;
use crate::store_model::{
    bound_prefix, eav_key, entry_datom, entry_datoms, find_attr, key_range, range_counted,
    range_rows, read_opt_key, scan, searched, sliced, BoundView, DatomView, Db, Fault, Index, Part,
};

verus! {

/// The datoms of rows are those of the single rows.
pub proof fn lemma_each_entry(db: Db, index: Index, rows: Seq<Row>)
    requires
        entry_datoms(db, index, rows) is Ok,
    ensures
        (entry_datoms(db, index, rows)->Ok_0).len() == rows.len(),
        forall|i: int|
            0 <= i < rows.len() ==> entry_datom(db, index, (#[trigger] rows[i]).0) == Ok::<
                DatomView,
                Fault,
            >((entry_datoms(db, index, rows)->Ok_0)[i]),
    decreases rows.len(),
{
    if rows.len() > 0 {
        let rest = rows.drop_last();
        lemma_each_entry(db, index, rest);
        assert forall|i: int| 0 <= i < rows.len() implies entry_datom(
            db,
            index,
            (#[trigger] rows[i]).0,
        ) == Ok::<DatomView, Fault>((entry_datoms(db, index, rows)->Ok_0)[i]) by {
            if i < rest.len() {
                assert(rest[i] == rows[i]);
            }
        }
    }
}

/// Rows whose single datoms are there have them in order.
proof fn lemma_entries(db: Db, index: Index, rows: Seq<Row>, ds: Seq<DatomView>)
    requires
        ds.len() == rows.len(),
        forall|i: int|
            0 <= i < rows.len() ==> entry_datom(db, index, (#[trigger] rows[i]).0) == Ok::<
                DatomView,
                Fault,
            >(ds[i]),
    ensures
        entry_datoms(db, index, rows) == Ok::<Seq<DatomView>, Fault>(ds),
    decreases rows.len(),
{
    if rows.len() > 0 {
        let rest = rows.drop_last();
        assert forall|i: int| 0 <= i < rest.len() implies entry_datom(
            db,
            index,
            (#[trigger] rest[i]).0,
        ) == Ok::<DatomView, Fault>(ds.drop_last()[i]) by {
            assert(rest[i] == rows[i]);
        }
        lemma_entries(db, index, rest, ds.drop_last());
        assert(rows[rows.len() - 1] == rows.last());
        assert(ds.drop_last().push(ds.last()) =~= ds);
    } else {
        assert(ds =~= Seq::empty());
    }
}

/// Counting a range gives the number of datoms in its slice.
pub proof fn law_range_count_is_slice_length(
    db: Db,
    index: Index,
    low: BoundView,
    high: BoundView,
)
    requires
        sliced(db, index, low, high, None, false) is Ok,
    ensures
        range_counted(db, index, low, high) == Ok::<nat, Fault>(
            (sliced(db, index, low, high, None, false)->Ok_0).len(),
        ),
{
    let rows = range_rows(db.ix.index(index), key_range(db, index, low, high)->Ok_0);
    lemma_each_entry(db, index, rows);
}

/// The reverse of a slice is the slice from the high end.
pub proof fn law_reverse_slice(db: Db, index: Index, low: BoundView, high: BoundView)
    requires
        sliced(db, index, low, high, None, false) is Ok,
    ensures
        sliced(db, index, low, high, None, true) == Ok::<Seq<DatomView>, Fault>(
            (sliced(db, index, low, high, None, false)->Ok_0).reverse(),
        ),
{
    let rows = range_rows(db.ix.index(index), key_range(db, index, low, high)->Ok_0);
    let ds = sliced(db, index, low, high, None, false)->Ok_0;
    lemma_each_entry(db, index, rows);
    assert forall|i: int| 0 <= i < rows.reverse().len() implies entry_datom(
        db,
        index,
        (#[trigger] rows.reverse()[i]).0,
    ) == Ok::<DatomView, Fault>(ds.reverse()[i]) by {
        assert(rows.reverse()[i] == rows[rows.len() - 1 - i]);
    }
    lemma_entries(db, index, rows.reverse(), ds.reverse());
}

/// A limit keeps the first datoms of a slice, whichever way it is walked.
pub proof fn law_limited_slice(
    db: Db,
    index: Index,
    low: BoundView,
    high: BoundView,
    limit: nat,
    reverse: bool,
)
    requires
        sliced(db, index, low, high, None, reverse) is Ok,
    ensures
        ({
            let all = sliced(db, index, low, high, None, reverse)->Ok_0;
            sliced(db, index, low, high, Some(limit), reverse) == Ok::<Seq<DatomView>, Fault>(
                if limit < all.len() {
                    all.take(limit as int)
                } else {
                    all
                },
            )
        }),
{
    let forward = range_rows(db.ix.index(index), key_range(db, index, low, high)->Ok_0);
    let rows = if reverse {
        forward.reverse()
    } else {
        forward
    };
    let all = sliced(db, index, low, high, None, reverse)->Ok_0;
    lemma_each_entry(db, index, rows);
    if limit == 0 {
        assert(all.take(0) =~= Seq::empty());
        if all.len() == 0 {
            assert(all =~= Seq::empty());
        }
    } else if limit < rows.len() {
        let few = rows.take(limit as int);
        assert forall|i: int| 0 <= i < few.len() implies entry_datom(
            db,
            index,
            (#[trigger] few[i]).0,
        ) == Ok::<DatomView, Fault>(all.take(limit as int)[i]) by {
            assert(few[i] == rows[i]);
        }
        lemma_entries(db, index, few, all.take(limit as int));
    }
}

/// A slice from a closed bound to itself holds what the bound's components are found by.
pub proof fn law_slice_of_one_bound(db: Db, index: Index, b: BoundView, prefix: Seq<u8>)
    requires
        ix_sorted(db.ix),
        b.closed,
        bound_prefix(db, index, b) == Ok::<Option<Seq<u8>>, Fault>(Some(prefix)),
    ensures
        sliced(db, index, b, b, None, false) == scan(db, index, prefix),
{
    let rows = db.ix.index(index);
    assert(sorted_rows(rows, false)) by {
        assert(sorted_rows(db.ix.rows(Part::Eav), false));
        assert(sorted_rows(db.ix.rows(Part::Ave), false));
        assert(sorted_rows(db.ix.rows(Part::Vae), false));
    }
    lemma_matching(rows, false, prefix);
    lemma_matching_count(rows, false, prefix);
    lemma_successor_above(prefix);
    let found = matching(rows, prefix);
    let from = rank(rows, prefix) as int;
    let range = key_range(db, index, b, b)->Ok_0;
    if prefix.len() == 0 {
        assert(successor(prefix) is None);
        assert(range == Some((prefix, None::<Seq<u8>>)));
    }
    if found.len() == 0 {
        assert(found =~= Seq::empty());
    }
    assert(range_rows(rows, range) =~= found);
}

/// The slice of an attribute, or of a value of it, is what searching for them finds.
pub proof fn law_slice_of_an_attribute(db: Db, b: BoundView)
    requires
        ix_sorted(db.ix),
        b.closed,
        b.e is None,
        b.a is Some,
    ensures
        sliced(db, Index::Ave, b, b, None, false) == searched(db, None, b.a, b.v),
{
    if let Some((aid, _)) = find_attr(db.attrs, b.a->0) {
        match read_opt_key(db.ix, b.v) {
            Ok(venc) => {
                let prefix = be_bytes(aid as nat, 4) + venc;
                if b.v is None {
                    assert(prefix =~= be_bytes(aid as nat, 4));
                }
                law_slice_of_one_bound(db, Index::Ave, b, prefix);
            },
            Err(_) => {},
        }
    } else {
        assert(entry_datoms(db, Index::Ave, Seq::empty()) == Ok::<Seq<DatomView>, Fault>(
            Seq::empty(),
        ));
    }
}

/// The slice of an entity, or of an attribute of it, is what searching for them finds.
pub proof fn law_slice_of_an_entity(db: Db, b: BoundView)
    requires
        ix_sorted(db.ix),
        b.closed,
        b.e is Some,
        b.a is None ==> b.v is None,
    ensures
        sliced(db, Index::Eav, b, b, None, false) == searched(db, b.e, b.a, b.v),
{
    let e = b.e->0;
    if b.a is None {
        law_slice_of_one_bound(db, Index::Eav, b, be_bytes(e as nat, 8));
    } else if let Some((aid, _)) = find_attr(db.attrs, b.a->0) {
        match read_opt_key(db.ix, b.v) {
            Ok(venc) => {
                law_slice_of_one_bound(db, Index::Eav, b, eav_key(e, aid, venc));
            },
            Err(_) => {},
        }
    } else {
        assert(entry_datoms(db, Index::Eav, Seq::empty()) == Ok::<Seq<DatomView>, Fault>(
            Seq::empty(),
        ));
    }
}

} // verus!
