//! Laws of sampling an attribute and of the stored form of values.

use vstd::prelude::*;
use vstd::utf8::encode_utf8;
use crate::bytes::be_bytes;
use crate::codec::{double_rank, encoding, escaped, signed_rank, value_lt, Datum};
use crate::prefix::{lemma_matching, matching};
use crate::slice_laws::lemma_each_entry;
use crate::store_laws::{law_search, lemma_index_sorted, lemma_u32_bytes, sound};
use crate::store_model::{
    ave_key, eav_key, entry_datom, find_attr, sample_datom, sampled, samples, searched, vae_key,
    DatomView, Db, Fault, Index,
};

verus! {

proof fn lemma_sample(db: Db, a: Seq<char>, all: Seq<DatomView>, i: int)
    requires
        sound(db),
        find_attr(db.attrs, a) is Some,
        searched(db, None, Some(a), None) == Ok::<Seq<DatomView>, Fault>(all),
        0 <= i < matching(db.ix.ave, be_bytes((find_attr(db.attrs, a)->0).0 as nat, 4)).len(),
    ensures
        all.len() == matching(
            db.ix.ave,
            be_bytes((find_attr(db.attrs, a)->0).0 as nat, 4),
        ).len(),
        sample_datom(
            db.ix,
            a,
            matching(db.ix.ave, be_bytes((find_attr(db.attrs, a)->0).0 as nat, 4))[i].0,
        ) == Ok::<DatomView, Fault>(all[i]),
{
    let aid = (find_attr(db.attrs, a)->0).0;
    let p = be_bytes(aid as nat, 4);
    let rows = matching(db.ix.ave, p);
    lemma_index_sorted(db.ix, Index::Ave);
    lemma_matching(db.ix.ave, false, p);
    lemma_u32_bytes(aid);
    assert(p + Seq::<u8>::empty() =~= p);
    lemma_each_entry(db, Index::Ave, rows);
    law_search(db, None, Some(a), None);
    assert(all.contains(all[i]));
    assert(entry_datom(db, Index::Ave, rows[i].0) == Ok::<DatomView, Fault>(all[i]));
}

proof fn lemma_samples(db: Db, a: Seq<char>, all: Seq<DatomView>, take: nat, i: nat)
    requires
        sound(db),
        find_attr(db.attrs, a) is Some,
        searched(db, None, Some(a), None) == Ok::<Seq<DatomView>, Fault>(all),
        all.len() == matching(
            db.ix.ave,
            be_bytes((find_attr(db.attrs, a)->0).0 as nat, 4),
        ).len(),
        0 < take <= all.len(),
        i <= take,
    ensures
        samples(
            db.ix,
            a,
            matching(db.ix.ave, be_bytes((find_attr(db.attrs, a)->0).0 as nat, 4)),
            take,
            i,
        ) matches Ok(ds) && ds.len() == i && forall|j: int|
            0 <= j < i ==> #[trigger] ds[j] == all[(j * all.len()) / (take as int)],
    decreases i,
{
    let rows = matching(db.ix.ave, be_bytes((find_attr(db.attrs, a)->0).0 as nat, 4));
    if i > 0 {
        lemma_samples(db, a, all, take, (i - 1) as nat);
        let n = all.len() as int;
        let t = take as int;
        let k = i - 1;
        let at = (k * n) / t;
        assert(0 <= at < n) by (nonlinear_arith)
            requires
                0 <= k < t,
                n > 0,
                at == (k * n) / t,
        ;
        lemma_sample(db, a, all, at);
    }
}

/// A sample of an attribute's datoms has as many as were asked for, or all where there are fewer,
/// taken at even steps from the datoms in the order of their values.
pub proof fn law_sampling(db: Db, a: Seq<char>, n: u64)
    requires
        sound(db),
    ensures
        searched(db, None, Some(a), None) matches Ok(all) && {
            &&& sampled(db, a, n) matches Ok(ds)
            &&& ds.len() == (if (n as nat) < all.len() {
                n as nat
            } else {
                all.len()
            })
            &&& forall|i: int|
                0 <= i < ds.len() ==> #[trigger] ds[i] == all[(i * all.len()) / (ds.len() as int)]
        },
{
    law_search(db, None, Some(a), None);
    let all = searched(db, None, Some(a), None)->Ok_0;
    if find_attr(db.attrs, a) is Some {
        let aid = (find_attr(db.attrs, a)->0).0;
        let p = be_bytes(aid as nat, 4);
        let rows = matching(db.ix.ave, p);
        assert(p + Seq::<u8>::empty() =~= p);
        lemma_each_entry(db, Index::Ave, rows);
        assert(all.len() == rows.len());
        if rows.len() > 0 && n > 0 {
            let take = if (n as nat) < rows.len() {
                n as nat
            } else {
                rows.len()
            };
            lemma_samples(db, a, all, take, take);
        }
    }
}

/// Values of different types are in the order of their types: booleans, longs, doubles, instants,
/// strings, keywords, uuids, references, bytes and vectors.
pub proof fn law_types_ascend(
    b: bool,
    n: i64,
    x: u64,
    s: Seq<char>,
    u: Seq<u8>,
    e: u64,
    items: Seq<Datum>,
)
    ensures
        value_lt(Datum::Bool(b), Datum::Long(n)),
        value_lt(Datum::Long(n), Datum::Double(x)),
        value_lt(Datum::Double(x), Datum::Instant(n)),
        value_lt(Datum::Instant(n), Datum::Str(s)),
        value_lt(Datum::Str(s), Datum::Keyword(s)),
        value_lt(Datum::Keyword(s), Datum::Uuid(u)),
        value_lt(Datum::Uuid(u), Datum::Ref(e)),
        value_lt(Datum::Ref(e), Datum::Bytes(u)),
        value_lt(Datum::Bytes(u), Datum::Vec(items)),
{
}

/// Longs, instants and references are in the order of their numbers, and false is before true.
/// Doubles are in the order of their numbers: those with a sign below those without, by their bits
/// and against them.
pub proof fn law_numbers_ascend(m: i64, n: i64, x: u64, y: u64)
    ensures
        value_lt(Datum::Long(m), Datum::Long(n)) <==> m < n,
        value_lt(Datum::Instant(m), Datum::Instant(n)) <==> m < n,
        value_lt(Datum::Ref(x), Datum::Ref(y)) <==> x < y,
        value_lt(Datum::Bool(false), Datum::Bool(true)),
        !value_lt(Datum::Bool(true), Datum::Bool(false)),
        x < 0x8000_0000_0000_0000u64 && y < 0x8000_0000_0000_0000u64 ==> (value_lt(
            Datum::Double(x),
            Datum::Double(y),
        ) <==> x < y),
        x >= 0x8000_0000_0000_0000u64 && y >= 0x8000_0000_0000_0000u64 ==> (value_lt(
            Datum::Double(x),
            Datum::Double(y),
        ) <==> y < x),
        x >= 0x8000_0000_0000_0000u64 && y < 0x8000_0000_0000_0000u64 ==> value_lt(
            Datum::Double(x),
            Datum::Double(y),
        ),
{
}

/// The stored form of a value: a byte that tells its type, then its contents.
pub proof fn law_stored_forms(b: bool, n: i64, x: u64, s: Seq<char>, u: Seq<u8>, e: u64)
    ensures
        encoding(Datum::Bool(b)) == seq![0x10u8, if b { 1u8 } else { 0u8 }],
        encoding(Datum::Long(n)) == seq![0x20u8] + be_bytes(signed_rank(n), 8),
        encoding(Datum::Double(x)) == seq![0x30u8] + be_bytes(double_rank(x), 8),
        encoding(Datum::Instant(n)) == seq![0x40u8] + be_bytes(signed_rank(n), 8),
        encoding(Datum::Str(s)) == seq![0x50u8] + escaped(encode_utf8(s)),
        encoding(Datum::Keyword(s)) == seq![0x60u8] + escaped(encode_utf8(s)),
        encoding(Datum::Uuid(u)) == seq![0x70u8] + u,
        encoding(Datum::Ref(e)) == seq![0x80u8] + be_bytes(e as nat, 8),
        encoding(Datum::Bytes(u)) == seq![0x90u8] + escaped(u),
        encoding(Datum::Vec(Seq::empty())) == seq![0xA0u8, 0x01u8],
        signed_rank(n) == n + 0x8000_0000_0000_0000,
{
    assert(encoding(Datum::Bool(b)) =~= seq![0x10u8, if b { 1u8 } else { 0u8 }]);
    reveal_with_fuel(crate::codec::encoding_all, 2);
    assert(encoding(Datum::Vec(Seq::empty())) =~= seq![0xA0u8, 0x01u8]);
}

/// The keys of the indexes: entity, attribute and value in the order that the index is named by.
pub proof fn law_index_keys(e: u64, t: u64, aid: u32, v: Seq<u8>)
    ensures
        eav_key(e, aid, v) == be_bytes(e as nat, 8) + be_bytes(aid as nat, 4) + v,
        ave_key(aid, v, e) == be_bytes(aid as nat, 4) + v + be_bytes(e as nat, 8),
        vae_key(t, aid, e) == be_bytes(t as nat, 8) + be_bytes(aid as nat, 4) + be_bytes(
            e as nat,
            8,
        ),
{
}

} // verus!
