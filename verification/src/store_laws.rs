//! What holds of every store: what searches find, what writes change, and what survives.

use vstd::prelude::*;
use vstd::utf8::*;
use crate::bytes::{be_bytes, be_value, lex_lt, pow256, starts_with};
use crate::bytes::{lemma_be_len, lemma_be_round_trip, lemma_lex_irreflexive, lemma_pow256_8};
use crate::codec::{
    encoding, parse, storable, tag_of, values_equal, Datum, DecodedDatum, GIANT_PREFIX,
    GIANT_THRESHOLD, TAG_GIANT_BYTES, TAG_GIANT_STR,
};
use crate::codec::law_decode_undoes_encode;
use crate::prefix::{matching, lemma_matching};
use crate::rows::{has_key, has_row, lookup, put_row, rank, sorted_rows, Row};
use crate::rows::{
    law_del_keys, law_lookup_after_put, law_put_keys, lemma_del_sorted, lemma_put_sorted,
};
use crate::store::{ix_sorted, lemma_entry_count};
use crate::store_model::{
    aid_name, apply, apply_all, ave_key, counted, counter, declare, delete_all, delete_datom,
    delete_encoded, eav_key, encoded_ref, entity_values, entry_datom, entry_datoms, find_attr,
    giant_key, giant_raw, having_value, insert_datom, intern, bump, meta_max_eid, meta_next_aid,
    meta_next_giant, read_key, read_opt_key, resolve, scan, searched, sha256_digest, unique_names,
    vae_key, without_attr, write_key, AttrProps, AttrRec, DatomView, Db, Fault, Index, Indexes,
    OpView, Part, attr_record, transacted,
};

verus! {

// ---------------------------------------------------------------------------
// Values in keys
// ---------------------------------------------------------------------------

/// The giants table holds `raw` under the id.
pub open spec fn giant_stored(ix: Indexes, raw: Seq<u8>, id: u64) -> bool {
    &&& lookup(ix.giant_ids, sha256_digest(raw)) == Some(be_bytes(id as nat, 8))
    &&& lookup(ix.giants, be_bytes(id as nat, 8)) matches Some(stored) && stored.len() > 0
        && stored.skip(1) == raw
}

/// `venc` is the key form of `v`: its encoding, or the key of a giant that is stored.
pub open spec fn keyed(ix: Indexes, v: Datum, venc: Seq<u8>) -> bool {
    &&& storable(v)
    &&& if encoding(v).len() <= GIANT_THRESHOLD {
        venc == encoding(v)
    } else {
        giant_raw(v) matches Some((tag, raw)) && exists|id: u64| #[trigger]
            giant_stored(ix, raw, id) && venc == giant_key(tag, raw, id as nat)
    }
}

/// Giants of a type sort after the inline values of that type and before those of the types above
/// it.
pub proof fn law_giants_sort_by_type(
    v: Datum,
    w: Datum,
    tag: u8,
    raw: Seq<u8>,
    id: nat,
    x: Seq<u8>,
    y: Seq<u8>,
)
    requires
        giant_raw(v) == Some((tag, raw)),
    ensures
        tag_of(w) <= tag_of(v) ==> lex_lt(encoding(w) + x, giant_key(tag, raw, id) + y),
        tag_of(w) > tag_of(v) ==> lex_lt(giant_key(tag, raw, id) + y, encoding(w) + x),
{
    let inline = encoding(w) + x;
    let giant = giant_key(tag, raw, id) + y;
    assert(inline[0] == tag_of(w));
    assert(giant[0] == tag);
}

/// A giant's key parses as the giant.
pub proof fn lemma_giant_key_parses(tag: u8, raw: Seq<u8>, id: u64, more: Seq<u8>)
    requires
        tag == TAG_GIANT_STR || tag == TAG_GIANT_BYTES,
        raw.len() >= GIANT_PREFIX,
    ensures
        parse(giant_key(tag, raw, id as nat) + more) == Ok::<(DecodedDatum, nat), Seq<char>>(
            (DecodedDatum::Giant { tag, id: id as nat }, giant_key(tag, raw, id as nat).len()),
        ),
        giant_key(tag, raw, id as nat).len() == 73,
{
    let key = giant_key(tag, raw, id as nat);
    let all = key + more;
    lemma_be_len(id as nat, 8);
    lemma_pow256_8();
    lemma_be_round_trip(id as nat, 8);
    assert(all[0] == tag);
    assert(all.skip(1).subrange(GIANT_PREFIX as int, GIANT_PREFIX + 8) =~= be_bytes(id as nat, 8));
}

/// A value that was oversized has enough raw bytes.
proof fn lemma_oversized(v: Datum)
    requires
        encoding(v).len() > GIANT_THRESHOLD,
    ensures
        giant_raw(v) matches Some((tag, raw)) ==> raw.len() >= GIANT_PREFIX && (tag
            == TAG_GIANT_STR || tag == TAG_GIANT_BYTES),
{
    if let Some((_, raw)) = giant_raw(v) {
        lemma_escaped_at_most_doubles(raw);
    }
}

proof fn lemma_escaped_at_most_doubles(raw: Seq<u8>)
    ensures
        crate::codec::escaped(raw).len() <= 2 * raw.len() + 2,
    decreases raw.len(),
{
    if raw.len() > 0 {
        lemma_escaped_at_most_doubles(raw.skip(1));
    }
}

/// Reading a key form gives back the value that was written and stops where the form ends,
/// whatever follows; giants included.
pub proof fn law_key_form_round_trip(ix: Indexes, v: Datum, venc: Seq<u8>, more: Seq<u8>)
    requires
        keyed(ix, v, venc),
    ensures
        resolve(ix, venc + more) == Ok::<(Datum, nat), Fault>((v, venc.len())),
{
    if encoding(v).len() <= GIANT_THRESHOLD {
        law_decode_undoes_encode(v, more);
    } else {
        lemma_oversized(v);
        let (tag, raw) = giant_raw(v)->0;
        let id = choose|id: u64| #[trigger] giant_stored(ix, raw, id) && venc == giant_key(
            tag,
            raw,
            id as nat,
        );
        lemma_giant_key_parses(tag, raw, id, more);
        if let Datum::Str(s) = v {
            encode_utf8_valid_utf8(s);
            encode_utf8_decode_utf8(s);
        }
    }
}

/// A key form is the form of one value, and a value has one form.
pub proof fn law_key_form_is_unique(ix: Indexes, v: Datum, x: Seq<u8>, w: Datum, y: Seq<u8>)
    requires
        keyed(ix, v, x),
        keyed(ix, w, y),
    ensures
        x == y <==> v == w,
        starts_with(x, y) ==> v == w,
{
    if v == w && encoding(v).len() > GIANT_THRESHOLD {
        let (tag, raw) = giant_raw(v)->0;
        let i = choose|id: u64| #[trigger] giant_stored(ix, raw, id) && x == giant_key(
            tag,
            raw,
            id as nat,
        );
        let j = choose|id: u64| #[trigger] giant_stored(ix, raw, id) && y == giant_key(
            tag,
            raw,
            id as nat,
        );
        assert(be_bytes(i as nat, 8) == be_bytes(j as nat, 8));
    }
    if starts_with(x, y) {
        law_key_form_round_trip(ix, v, x, Seq::empty());
        law_key_form_round_trip(ix, w, y, x.skip(y.len() as int));
        assert(x + Seq::<u8>::empty() =~= x);
        assert(x =~= y + x.skip(y.len() as int));
    }
    if x == y {
        assert(x.take(y.len() as int) =~= y);
    }
}

/// No stored giant has the digest of `v` with other content.
pub open spec fn collision_free(ix: Indexes, v: Datum) -> bool {
    giant_raw(v) matches Some((_, raw)) ==> (lookup(ix.giant_ids, sha256_digest(raw)) matches Some(
        idb,
    ) ==> (lookup(ix.giants, idb) matches Some(stored) && stored.len() > 0 && stored.skip(1)
        == raw))
}

/// Each digest leads to an id, and each id to a giant with this digest.
pub open spec fn giants_agree(ix: Indexes, top: nat) -> bool {
    forall|d: Seq<u8>| #![trigger lookup(ix.giant_ids, d)]
        lookup(ix.giant_ids, d) matches Some(idb) ==> (exists|id: u64| giant_entry(ix, d, idb, id)
            && 1 <= id <= top)
}

/// The id's bytes are `idb`, and the giant under it has the digest `d`.
pub open spec fn giant_entry(ix: Indexes, d: Seq<u8>, idb: Seq<u8>, id: u64) -> bool {
    &&& idb == be_bytes(id as nat, 8)
    &&& lookup(ix.giants, idb) matches Some(stored) && stored.len() > 0 && sha256_digest(
        stored.skip(1),
    ) == d
}

/// What a lookup form of a value is: the key form where the value is inline or its giant stored,
/// else a key that no stored value has.
proof fn lemma_read_key(ix: Indexes, top: nat, v: Datum)
    requires
        giants_agree(ix, top),
        collision_free(ix, v),
        storable(v),
        read_key(ix, v) is Ok,
    ensures
        keyed(ix, v, read_key(ix, v)->Ok_0) || (encoding(v).len() > GIANT_THRESHOLD && (giant_raw(
            v,
        ) matches Some((tag, raw)) && lookup(ix.giant_ids, sha256_digest(raw)) is None && read_key(
            ix,
            v,
        )->Ok_0 == giant_key(tag, raw, 0))),
{
    if encoding(v).len() > GIANT_THRESHOLD {
        let (tag, raw) = giant_raw(v)->0;
        if let Some(idb) = lookup(ix.giant_ids, sha256_digest(raw)) {
            let id = choose|id: u64| giant_entry(ix, sha256_digest(raw), idb, id) && 1 <= id <= top;
            lemma_be_len(id as nat, 8);
            lemma_pow256_8();
            lemma_be_round_trip(id as nat, 8);
            assert(giant_stored(ix, raw, id));
        }
    }
}

// ---------------------------------------------------------------------------
// Keys
// ---------------------------------------------------------------------------

pub proof fn lemma_u64_bytes(n: u64)
    ensures
        be_bytes(n as nat, 8).len() == 8,
        be_value(be_bytes(n as nat, 8)) == n,
{
    lemma_be_len(n as nat, 8);
    lemma_pow256_8();
    lemma_be_round_trip(n as nat, 8);
}

pub proof fn lemma_u32_bytes(n: u32)
    ensures
        be_bytes(n as nat, 4).len() == 4,
        be_value(be_bytes(n as nat, 4)) == n,
{
    lemma_be_len(n as nat, 4);
    assert(pow256(4) == 0x1_0000_0000) by {
        reveal_with_fuel(pow256, 5);
    }
    lemma_be_round_trip(n as nat, 4);
}

/// The parts of an `eav` key.
proof fn lemma_eav_parts(e: u64, aid: u32, venc: Seq<u8>)
    ensures
        eav_key(e, aid, venc).len() == 12 + venc.len(),
        eav_key(e, aid, venc).take(8) == be_bytes(e as nat, 8),
        eav_key(e, aid, venc).subrange(8, 12) == be_bytes(aid as nat, 4),
        eav_key(e, aid, venc).skip(12) == venc,
        be_value(eav_key(e, aid, venc).take(8)) == e,
        be_value(eav_key(e, aid, venc).subrange(8, 12)) == aid,
{
    lemma_u64_bytes(e);
    lemma_u32_bytes(aid);
    let k = eav_key(e, aid, venc);
    assert(k.take(8) =~= be_bytes(e as nat, 8));
    assert(k.subrange(8, 12) =~= be_bytes(aid as nat, 4));
    assert(k.skip(12) =~= venc);
}

/// The parts of an `ave` key.
proof fn lemma_ave_parts(aid: u32, venc: Seq<u8>, e: u64)
    ensures
        ave_key(aid, venc, e).len() == 12 + venc.len(),
        ave_key(aid, venc, e).take(4) == be_bytes(aid as nat, 4),
        ave_key(aid, venc, e).skip(4) == venc + be_bytes(e as nat, 8),
        ave_key(aid, venc, e).subrange(4 + venc.len() as int, 12 + venc.len() as int) == be_bytes(
            e as nat,
            8,
        ),
        be_value(ave_key(aid, venc, e).take(4)) == aid,
        be_value(be_bytes(e as nat, 8)) == e,
{
    lemma_u64_bytes(e);
    lemma_u32_bytes(aid);
    let k = ave_key(aid, venc, e);
    assert(k.take(4) =~= be_bytes(aid as nat, 4));
    assert(k.skip(4) =~= venc + be_bytes(e as nat, 8));
    assert(k.subrange(4 + venc.len() as int, 12 + venc.len() as int) =~= be_bytes(e as nat, 8));
}

/// The parts of a `vae` key.
proof fn lemma_vae_parts(target: u64, aid: u32, e: u64)
    ensures
        vae_key(target, aid, e).len() == 20,
        vae_key(target, aid, e).take(8) == be_bytes(target as nat, 8),
        be_value(vae_key(target, aid, e).take(8)) == target,
        be_value(vae_key(target, aid, e).subrange(8, 12)) == aid,
        be_value(vae_key(target, aid, e).subrange(12, 20)) == e,
{
    lemma_u64_bytes(e);
    lemma_u64_bytes(target);
    lemma_u32_bytes(aid);
    let k = vae_key(target, aid, e);
    assert(k.take(8) =~= be_bytes(target as nat, 8));
    assert(k.subrange(8, 12) =~= be_bytes(aid as nat, 4));
    assert(k.subrange(12, 20) =~= be_bytes(e as nat, 8));
}

/// Equal `eav` keys are of equal parts.
proof fn lemma_eav_injective(e: u64, aid: u32, x: Seq<u8>, f: u64, bid: u32, y: Seq<u8>)
    requires
        eav_key(e, aid, x) == eav_key(f, bid, y),
    ensures
        e == f,
        aid == bid,
        x == y,
{
    lemma_eav_parts(e, aid, x);
    lemma_eav_parts(f, bid, y);
}

/// Equal `ave` keys of key forms are of equal parts.
proof fn lemma_ave_injective(
    ix: Indexes,
    aid: u32,
    v: Datum,
    x: Seq<u8>,
    e: u64,
    bid: u32,
    w: Datum,
    y: Seq<u8>,
    f: u64,
)
    requires
        keyed(ix, v, x),
        keyed(ix, w, y),
        ave_key(aid, x, e) == ave_key(bid, y, f),
    ensures
        e == f,
        aid == bid,
        v == w,
        x == y,
{
    lemma_ave_parts(aid, x, e);
    lemma_ave_parts(bid, y, f);
    law_key_form_round_trip(ix, v, x, be_bytes(e as nat, 8));
    law_key_form_round_trip(ix, w, y, be_bytes(f as nat, 8));
    law_key_form_is_unique(ix, v, x, w, y);
}

/// Equal `vae` keys are of equal parts.
proof fn lemma_vae_injective(t: u64, aid: u32, e: u64, u: u64, bid: u32, f: u64)
    requires
        vae_key(t, aid, e) == vae_key(u, bid, f),
    ensures
        t == u,
        aid == bid,
        e == f,
{
    lemma_vae_parts(t, aid, e);
    lemma_vae_parts(u, bid, f);
}

// ---------------------------------------------------------------------------
// The indexes agree
// ---------------------------------------------------------------------------

/// The id is one of the attributes'.
pub open spec fn aid_known(attrs: Seq<AttrRec>, aid: u32) -> bool {
    exists|k: int| 0 <= k < attrs.len() && (#[trigger] attrs[k]).aid == aid
}

/// The key stands for a datom of a known attribute.
pub open spec fn eav_form(
    ix: Indexes,
    attrs: Seq<AttrRec>,
    k: Seq<u8>,
    e: u64,
    aid: u32,
    v: Datum,
    venc: Seq<u8>,
) -> bool {
    keyed(ix, v, venc) && aid_known(attrs, aid) && k == eav_key(e, aid, venc)
}

/// The key stands for a datom that `eav` has.
pub open spec fn ave_form(ix: Indexes, k: Seq<u8>, e: u64, aid: u32, v: Datum, venc: Seq<u8>) -> bool {
    keyed(ix, v, venc) && k == ave_key(aid, venc, e) && has_key(ix.eav, eav_key(e, aid, venc))
}

/// The key stands for a ref datom that `eav` has.
pub open spec fn vae_form(ix: Indexes, k: Seq<u8>, t: u64, aid: u32, e: u64) -> bool {
    k == vae_key(t, aid, e) && has_key(ix.eav, eav_key(e, aid, encoding(Datum::Ref(t))))
}

/// Every `eav` key stands for a datom of a known attribute.
#[verifier::opaque]
pub open spec fn eav_sound(ix: Indexes, attrs: Seq<AttrRec>) -> bool {
    forall|k: Seq<u8>| #[trigger]
        has_key(ix.eav, k) ==> exists|e: u64, aid: u32, v: Datum, venc: Seq<u8>|
            eav_form(ix, attrs, k, e, aid, v, venc)
}

/// Every `ave` key stands for a datom that `eav` has.
#[verifier::opaque]
pub open spec fn ave_sound(ix: Indexes) -> bool {
    forall|k: Seq<u8>| #[trigger]
        has_key(ix.ave, k) ==> exists|e: u64, aid: u32, v: Datum, venc: Seq<u8>|
            ave_form(ix, k, e, aid, v, venc)
}

/// Every datom of `eav` is in `ave`.
#[verifier::opaque]
pub open spec fn ave_complete(ix: Indexes) -> bool {
    forall|e: u64, aid: u32, v: Datum, venc: Seq<u8>|
        #![trigger keyed(ix, v, venc), eav_key(e, aid, venc)]
        keyed(ix, v, venc) && has_key(ix.eav, eav_key(e, aid, venc)) ==> has_key(
            ix.ave,
            ave_key(aid, venc, e),
        )
}

/// Every `vae` key stands for a ref datom that `eav` has.
#[verifier::opaque]
pub open spec fn vae_sound(ix: Indexes) -> bool {
    forall|k: Seq<u8>| #[trigger]
        has_key(ix.vae, k) ==> exists|t: u64, aid: u32, e: u64| vae_form(ix, k, t, aid, e)
}

/// Every ref datom of `eav` is in `vae`.
#[verifier::opaque]
pub open spec fn vae_complete(ix: Indexes) -> bool {
    forall|t: u64, aid: u32, e: u64| #[trigger]
        has_key(ix.eav, eav_key(e, aid, encoding(Datum::Ref(t)))) ==> has_key(
            ix.vae,
            vae_key(t, aid, e),
        )
}

/// Every datom of one index is in the others: `eav` and `ave` hold the same datoms, and `vae`
/// the refs among them.
pub open spec fn indexes_agree(ix: Indexes, attrs: Seq<AttrRec>) -> bool {
    &&& eav_sound(ix, attrs)
    &&& ave_sound(ix)
    &&& ave_complete(ix)
    &&& vae_sound(ix)
    &&& vae_complete(ix)
}

/// A ref is always inline.
proof fn lemma_ref_inline(ix: Indexes, t: u64)
    ensures
        keyed(ix, Datum::Ref(t), encoding(Datum::Ref(t))),
{
    lemma_be_len(t as nat, 8);
}

/// Key forms do not depend on the indexes.
proof fn lemma_keyed_same_giants(ix: Indexes, jx: Indexes, v: Datum, venc: Seq<u8>)
    requires
        ix.giants == jx.giants,
        ix.giant_ids == jx.giant_ids,
    ensures
        keyed(ix, v, venc) == keyed(jx, v, venc),
{
    if let Some((tag, raw)) = giant_raw(v) {
        if keyed(ix, v, venc) && encoding(v).len() > GIANT_THRESHOLD {
            let id = choose|id: u64| #[trigger] giant_stored(ix, raw, id) && venc == giant_key(
                tag,
                raw,
                id as nat,
            );
            assert(giant_stored(jx, raw, id));
        }
        if keyed(jx, v, venc) && encoding(v).len() > GIANT_THRESHOLD {
            let id = choose|id: u64| #[trigger] giant_stored(jx, raw, id) && venc == giant_key(
                tag,
                raw,
                id as nat,
            );
            assert(giant_stored(ix, raw, id));
        }
    }
}

/// Only the three indexes are touched, and each stays sorted.
pub open spec fn only_indexes_changed(ix: Indexes, jx: Indexes) -> bool {
    &&& jx.schema == ix.schema
    &&& jx.meta == ix.meta
    &&& jx.giants == ix.giants
    &&& jx.giant_ids == ix.giant_ids
}

/// One datom was added to the indexes, or dropped from them, and no other.
spec fn datom_changed(
    ix: Indexes,
    jx: Indexes,
    add: bool,
    e: u64,
    aid: u32,
    venc: Seq<u8>,
    v: Datum,
) -> bool {
    &&& only_indexes_changed(ix, jx)
    &&& forall|k: Seq<u8>| #[trigger]
        has_key(jx.eav, k) <==> if k == eav_key(e, aid, venc) {
            add
        } else {
            has_key(ix.eav, k)
        }
    &&& forall|k: Seq<u8>| #[trigger]
        has_key(jx.ave, k) <==> if k == ave_key(aid, venc, e) {
            add
        } else {
            has_key(ix.ave, k)
        }
    &&& forall|k: Seq<u8>| #[trigger]
        has_key(jx.vae, k) <==> if is_ref_key(k, e, aid, v) {
            add
        } else {
            has_key(ix.vae, k)
        }
}

/// The `vae` key of a ref datom.
spec fn is_ref_key(k: Seq<u8>, e: u64, aid: u32, v: Datum) -> bool {
    v matches Datum::Ref(t) && k == vae_key(t, aid, e)
}

proof fn lemma_changed_eav(
    ix: Indexes,
    jx: Indexes,
    attrs: Seq<AttrRec>,
    add: bool,
    e: u64,
    aid: u32,
    venc: Seq<u8>,
    v: Datum,
)
    requires
        datom_changed(ix, jx, add, e, aid, venc, v),
        keyed(ix, v, venc),
        add ==> aid_known(attrs, aid),
        eav_sound(ix, attrs),
    ensures
        eav_sound(jx, attrs),
{
    reveal(eav_sound);
    assert forall|k: Seq<u8>| #[trigger] has_key(jx.eav, k) implies exists|
        f: u64,
        bid: u32,
        w: Datum,
        x: Seq<u8>,
    | eav_form(jx, attrs, k, f, bid, w, x) by {
        if k == eav_key(e, aid, venc) {
            lemma_keyed_same_giants(ix, jx, v, venc);
            assert(eav_form(jx, attrs, k, e, aid, v, venc));
        } else {
            assert(has_key(ix.eav, k));
            let (f, bid, w, x) = choose|f: u64, bid: u32, w: Datum, x: Seq<u8>|
                eav_form(ix, attrs, k, f, bid, w, x);
            lemma_keyed_same_giants(ix, jx, w, x);
            assert(eav_form(jx, attrs, k, f, bid, w, x));
        }
    }
}

proof fn lemma_changed_ave(
    ix: Indexes,
    jx: Indexes,
    add: bool,
    e: u64,
    aid: u32,
    venc: Seq<u8>,
    v: Datum,
)
    requires
        datom_changed(ix, jx, add, e, aid, venc, v),
        keyed(ix, v, venc),
        ave_sound(ix),
    ensures
        ave_sound(jx),
{
    reveal(ave_sound);
    assert forall|k: Seq<u8>| #[trigger] has_key(jx.ave, k) implies exists|
        f: u64,
        bid: u32,
        w: Datum,
        x: Seq<u8>,
    | ave_form(jx, k, f, bid, w, x) by {
        if k == ave_key(aid, venc, e) {
            lemma_keyed_same_giants(ix, jx, v, venc);
            assert(has_key(jx.eav, eav_key(e, aid, venc)));
            assert(ave_form(jx, k, e, aid, v, venc));
        } else {
            assert(has_key(ix.ave, k));
            let (f, bid, w, x) = choose|f: u64, bid: u32, w: Datum, x: Seq<u8>|
                ave_form(ix, k, f, bid, w, x);
            lemma_keyed_same_giants(ix, jx, w, x);
            if eav_key(f, bid, x) == eav_key(e, aid, venc) {
                lemma_eav_injective(f, bid, x, e, aid, venc);
            }
            assert(has_key(jx.eav, eav_key(f, bid, x)));
            assert(ave_form(jx, k, f, bid, w, x));
        }
    }
}

proof fn lemma_changed_ave_complete(
    ix: Indexes,
    jx: Indexes,
    add: bool,
    e: u64,
    aid: u32,
    venc: Seq<u8>,
    v: Datum,
)
    requires
        datom_changed(ix, jx, add, e, aid, venc, v),
        keyed(ix, v, venc),
        ave_complete(ix),
    ensures
        ave_complete(jx),
{
    reveal(ave_complete);
    assert forall|f: u64, bid: u32, w: Datum, x: Seq<u8>|
        #![trigger keyed(jx, w, x), eav_key(f, bid, x)]
        keyed(jx, w, x) && has_key(jx.eav, eav_key(f, bid, x)) implies has_key(
        jx.ave,
        ave_key(bid, x, f),
    ) by {
        lemma_keyed_same_giants(ix, jx, w, x);
        if eav_key(f, bid, x) == eav_key(e, aid, venc) {
            lemma_eav_injective(f, bid, x, e, aid, venc);
        } else {
            assert(has_key(ix.eav, eav_key(f, bid, x)));
            assert(has_key(ix.ave, ave_key(bid, x, f)));
            if ave_key(bid, x, f) == ave_key(aid, venc, e) {
                lemma_ave_injective(ix, bid, w, x, f, aid, v, venc, e);
            }
        }
    }
}

proof fn lemma_changed_vae(
    ix: Indexes,
    jx: Indexes,
    add: bool,
    e: u64,
    aid: u32,
    venc: Seq<u8>,
    v: Datum,
)
    requires
        datom_changed(ix, jx, add, e, aid, venc, v),
        keyed(ix, v, venc),
        vae_sound(ix),
    ensures
        vae_sound(jx),
{
    reveal(vae_sound);
    assert forall|k: Seq<u8>| #[trigger] has_key(jx.vae, k) implies exists|t: u64, bid: u32, f: u64|
        vae_form(jx, k, t, bid, f) by {
        if is_ref_key(k, e, aid, v) {
            let t = v->Ref_0;
            lemma_ref_inline(ix, t);
            law_key_form_is_unique(ix, v, venc, v, encoding(v));
            assert(has_key(jx.eav, eav_key(e, aid, encoding(Datum::Ref(t)))));
            assert(vae_form(jx, k, t, aid, e));
        } else {
            assert(has_key(ix.vae, k));
            let (t, bid, f) = choose|t: u64, bid: u32, f: u64| vae_form(ix, k, t, bid, f);
            let x = encoding(Datum::Ref(t));
            if eav_key(f, bid, x) == eav_key(e, aid, venc) {
                lemma_eav_injective(f, bid, x, e, aid, venc);
                lemma_ref_inline(ix, t);
                law_key_form_is_unique(ix, v, venc, Datum::Ref(t), x);
            }
            assert(has_key(jx.eav, eav_key(f, bid, x)));
            assert(vae_form(jx, k, t, bid, f));
        }
    }
}

proof fn lemma_changed_vae_complete(
    ix: Indexes,
    jx: Indexes,
    add: bool,
    e: u64,
    aid: u32,
    venc: Seq<u8>,
    v: Datum,
)
    requires
        datom_changed(ix, jx, add, e, aid, venc, v),
        keyed(ix, v, venc),
        vae_complete(ix),
    ensures
        vae_complete(jx),
{
    reveal(vae_complete);
    assert forall|t: u64, bid: u32, f: u64| #[trigger]
        has_key(jx.eav, eav_key(f, bid, encoding(Datum::Ref(t)))) implies has_key(
        jx.vae,
        vae_key(t, bid, f),
    ) by {
        let x = encoding(Datum::Ref(t));
        lemma_ref_inline(ix, t);
        if eav_key(f, bid, x) == eav_key(e, aid, venc) {
            lemma_eav_injective(f, bid, x, e, aid, venc);
            law_key_form_is_unique(ix, v, venc, Datum::Ref(t), x);
        } else {
            assert(has_key(ix.eav, eav_key(f, bid, x)));
            assert(has_key(ix.vae, vae_key(t, bid, f)));
            if is_ref_key(vae_key(t, bid, f), e, aid, v) {
                let u = v->Ref_0;
                lemma_vae_injective(t, bid, f, u, aid, e);
                law_key_form_is_unique(ix, v, venc, v, encoding(v));
            }
        }
    }
}

/// Adding or dropping one datom keeps the indexes in agreement.
proof fn lemma_changed_agrees(
    ix: Indexes,
    jx: Indexes,
    attrs: Seq<AttrRec>,
    add: bool,
    e: u64,
    aid: u32,
    venc: Seq<u8>,
    v: Datum,
)
    requires
        datom_changed(ix, jx, add, e, aid, venc, v),
        keyed(ix, v, venc),
        add ==> aid_known(attrs, aid),
        indexes_agree(ix, attrs),
    ensures
        indexes_agree(jx, attrs),
{
    lemma_changed_eav(ix, jx, attrs, add, e, aid, venc, v);
    lemma_changed_ave(ix, jx, add, e, aid, venc, v);
    lemma_changed_ave_complete(ix, jx, add, e, aid, venc, v);
    lemma_changed_vae(ix, jx, add, e, aid, venc, v);
    lemma_changed_vae_complete(ix, jx, add, e, aid, venc, v);
}

/// Inserting a datom keeps the indexes in agreement, and adds its key alone.
proof fn lemma_insert_agrees(
    ix: Indexes,
    attrs: Seq<AttrRec>,
    e: u64,
    aid: u32,
    venc: Seq<u8>,
    v: Datum,
)
    requires
        ix_sorted(ix),
        indexes_agree(ix, attrs),
        keyed(ix, v, venc),
        aid_known(attrs, aid),
    ensures
        ix_sorted(insert_datom(ix, e, aid, venc, v)),
        indexes_agree(insert_datom(ix, e, aid, venc, v), attrs),
        only_indexes_changed(ix, insert_datom(ix, e, aid, venc, v)),
        forall|k: Seq<u8>| #[trigger]
            has_key(insert_datom(ix, e, aid, venc, v).eav, k) <==> (k == eav_key(e, aid, venc)
                || has_key(ix.eav, k)),
{
    let jx = insert_datom(ix, e, aid, venc, v);
    let ek = eav_key(e, aid, venc);
    let ak = ave_key(aid, venc, e);
    assert(sorted_rows(ix.rows(Part::Eav), false));
    assert(sorted_rows(ix.rows(Part::Ave), false));
    assert(sorted_rows(ix.rows(Part::Vae), false));
    lemma_put_sorted(ix.eav, false, ek, Seq::empty());
    lemma_put_sorted(ix.ave, false, ak, Seq::empty());
    if let Datum::Ref(t) = v {
        lemma_put_sorted(ix.vae, false, vae_key(t, aid, e), Seq::empty());
    }
    assert forall|p: Part| sorted_rows(#[trigger] jx.rows(p), false) by {
        assert(sorted_rows(ix.rows(p), false));
    }
    assert forall|k: Seq<u8>| #[trigger] has_key(jx.eav, k) <==> (k == ek || has_key(ix.eav, k)) by {
        law_put_keys(ix.eav, ek, Seq::empty(), k);
    }
    assert forall|k: Seq<u8>| #[trigger] has_key(jx.ave, k) <==> (k == ak || has_key(ix.ave, k)) by {
        law_put_keys(ix.ave, ak, Seq::empty(), k);
    }
    assert forall|k: Seq<u8>| #[trigger] has_key(jx.vae, k) <==> (is_ref_key(k, e, aid, v)
        || has_key(ix.vae, k)) by {
        if let Datum::Ref(t) = v {
            law_put_keys(ix.vae, vae_key(t, aid, e), Seq::empty(), k);
        }
    }
    lemma_changed_agrees(ix, jx, attrs, true, e, aid, venc, v);
}

/// Deleting a datom keeps the indexes in agreement, and drops its key alone.
proof fn lemma_delete_agrees(
    ix: Indexes,
    attrs: Seq<AttrRec>,
    e: u64,
    aid: u32,
    venc: Seq<u8>,
    v: Datum,
)
    requires
        ix_sorted(ix),
        indexes_agree(ix, attrs),
        keyed(ix, v, venc),
    ensures
        ix_sorted(delete_datom(ix, e, aid, venc, v)),
        indexes_agree(delete_datom(ix, e, aid, venc, v), attrs),
        only_indexes_changed(ix, delete_datom(ix, e, aid, venc, v)),
        forall|k: Seq<u8>| #[trigger]
            has_key(delete_datom(ix, e, aid, venc, v).eav, k) <==> (k != eav_key(e, aid, venc)
                && has_key(ix.eav, k)),
{
    let jx = delete_datom(ix, e, aid, venc, v);
    let ek = eav_key(e, aid, venc);
    let ak = ave_key(aid, venc, e);
    assert(sorted_rows(ix.rows(Part::Eav), false));
    assert(sorted_rows(ix.rows(Part::Ave), false));
    assert(sorted_rows(ix.rows(Part::Vae), false));
    lemma_del_sorted(ix.eav, false, ek, None);
    lemma_del_sorted(ix.ave, false, ak, None);
    if let Datum::Ref(t) = v {
        lemma_del_sorted(ix.vae, false, vae_key(t, aid, e), None);
    }
    assert forall|p: Part| sorted_rows(#[trigger] jx.rows(p), false) by {
        assert(sorted_rows(ix.rows(p), false));
    }
    assert forall|k: Seq<u8>| #[trigger] has_key(jx.eav, k) <==> (k != ek && has_key(ix.eav, k)) by {
        law_del_keys(ix.eav, ek, k);
    }
    assert forall|k: Seq<u8>| #[trigger] has_key(jx.ave, k) <==> (k != ak && has_key(ix.ave, k)) by {
        law_del_keys(ix.ave, ak, k);
    }
    assert forall|k: Seq<u8>| #[trigger] has_key(jx.vae, k) <==> (!is_ref_key(k, e, aid, v)
        && has_key(ix.vae, k)) by {
        if let Datum::Ref(t) = v {
            law_del_keys(ix.vae, vae_key(t, aid, e), k);
        }
    }
    lemma_changed_agrees(ix, jx, attrs, false, e, aid, venc, v);
}

/// A key form tells whether it is a ref's.
proof fn lemma_encoded_ref(ix: Indexes, v: Datum, venc: Seq<u8>)
    requires
        keyed(ix, v, venc),
    ensures
        encoded_ref(venc) == (match v {
            Datum::Ref(t) => Some(t),
            _ => None,
        }),
{
    if encoding(v).len() <= GIANT_THRESHOLD {
        law_decode_undoes_encode(v, Seq::empty());
        assert(encoding(v) + Seq::<u8>::empty() =~= encoding(v));
    } else {
        lemma_oversized(v);
        let (tag, raw) = giant_raw(v)->0;
        let id = choose|id: u64| #[trigger] giant_stored(ix, raw, id) && venc == giant_key(
            tag,
            raw,
            id as nat,
        );
        assert(venc[0] == tag);
    }
}

/// The values are key forms.
spec fn all_keyed(ix: Indexes, values: Seq<Seq<u8>>) -> bool {
    forall|i: int| 0 <= i < values.len() ==> is_keyed(ix, #[trigger] values[i])
}

spec fn is_keyed(ix: Indexes, x: Seq<u8>) -> bool {
    exists|v: Datum| keyed(ix, v, x)
}

/// Deleting datoms of one entity and attribute keeps the indexes in agreement and drops their
/// keys alone.
proof fn lemma_delete_all_agrees(
    ix: Indexes,
    attrs: Seq<AttrRec>,
    e: u64,
    aid: u32,
    values: Seq<Seq<u8>>,
)
    requires
        ix_sorted(ix),
        indexes_agree(ix, attrs),
        all_keyed(ix, values),
    ensures
        ix_sorted(delete_all(ix, e, aid, values)),
        indexes_agree(delete_all(ix, e, aid, values), attrs),
        only_indexes_changed(ix, delete_all(ix, e, aid, values)),
        forall|k: Seq<u8>| #[trigger]
            has_key(delete_all(ix, e, aid, values).eav, k) <==> (has_key(ix.eav, k)
                && !is_one_of(k, e, aid, values)),
    decreases values.len(),
{
    if values.len() > 0 {
        let init = values.drop_last();
        let x = values.last();
        assert(all_keyed(ix, init)) by {
            assert forall|i: int| 0 <= i < init.len() implies is_keyed(ix, #[trigger] init[i]) by {
                assert(init[i] == values[i]);
            }
        }
        lemma_delete_all_agrees(ix, attrs, e, aid, init);
        let mid = delete_all(ix, e, aid, init);
        assert(is_keyed(ix, values[values.len() - 1]));
        let v = choose|v: Datum| keyed(ix, v, x);
        lemma_keyed_same_giants(ix, mid, v, x);
        lemma_encoded_ref(mid, v, x);
        assert(delete_encoded(mid, e, aid, x) == delete_datom(mid, e, aid, x, v));
        lemma_delete_agrees(mid, attrs, e, aid, x, v);
        let jx = delete_all(ix, e, aid, values);
        assert forall|k: Seq<u8>| #[trigger] has_key(jx.eav, k) <==> (has_key(ix.eav, k)
            && !is_one_of(k, e, aid, values)) by {
            if is_one_of(k, e, aid, values) {
                let i = choose|i: int| 0 <= i < values.len() && k == eav_key(
                    e,
                    aid,
                    #[trigger] values[i],
                );
                if i < init.len() {
                    assert(init[i] == values[i]);
                    assert(is_one_of(k, e, aid, init));
                } else {
                    assert(k == eav_key(e, aid, x));
                }
            } else {
                if is_one_of(k, e, aid, init) {
                    let i = choose|i: int| 0 <= i < init.len() && k == eav_key(
                        e,
                        aid,
                        #[trigger] init[i],
                    );
                    assert(values[i] == init[i]);
                }
                if k == eav_key(e, aid, x) {
                    assert(values[values.len() - 1] == x);
                }
            }
        }
    }
}

/// The key is that of one of the values.
spec fn is_one_of(k: Seq<u8>, e: u64, aid: u32, values: Seq<Seq<u8>>) -> bool {
    exists|i: int| 0 <= i < values.len() && k == eav_key(e, aid, #[trigger] values[i])
}

/// The start of every `eav` key of an entity and attribute.
pub open spec fn entity_prefix(e: u64, aid: u32) -> Seq<u8> {
    be_bytes(e as nat, 8) + be_bytes(aid as nat, 4)
}

/// The datom that an `eav` key stands for.
proof fn lemma_eav_form(ix: Indexes, attrs: Seq<AttrRec>, k: Seq<u8>) -> (r: (
    u64,
    u32,
    Datum,
    Seq<u8>,
))
    requires
        indexes_agree(ix, attrs),
        has_key(ix.eav, k),
    ensures
        eav_form(ix, attrs, k, r.0, r.1, r.2, r.3),
{
    reveal(eav_sound);
    choose|f: u64, bid: u32, w: Datum, x: Seq<u8>| eav_form(ix, attrs, k, f, bid, w, x)
}

/// The values asserted for an entity and attribute are key forms, and their keys are exactly
/// the keys that start with the entity and attribute.
proof fn lemma_entity_values(ix: Indexes, attrs: Seq<AttrRec>, e: u64, aid: u32)
    requires
        ix_sorted(ix),
        indexes_agree(ix, attrs),
    ensures
        all_keyed(ix, entity_values(ix.eav, e, aid)),
        forall|k: Seq<u8>| #![trigger has_key(ix.eav, k)]
            has_key(ix.eav, k) ==> (is_one_of(k, e, aid, entity_values(ix.eav, e, aid))
                <==> starts_with(k, entity_prefix(e, aid))),
{
    let p = entity_prefix(e, aid);
    let rows = matching(ix.eav, p);
    let values = entity_values(ix.eav, e, aid);
    let from = rank(ix.eav, p) as int;
    assert(sorted_rows(ix.rows(Part::Eav), false));
    lemma_matching(ix.eav, false, p);
    lemma_u64_bytes(e);
    lemma_u32_bytes(aid);
    assert forall|i: int| 0 <= i < values.len() implies is_keyed(ix, #[trigger] values[i]) && rows[i].0
        == eav_key(e, aid, values[i]) by {
        let k = rows[i].0;
        assert(rows[i] == ix.eav[from + i]);
        assert(ix.eav[from + i].0 == k);
        assert(starts_with(k, p));
        assert(has_key(ix.eav, k));
        let (f, bid, w, x) = lemma_eav_form(ix, attrs, k);
        lemma_eav_parts(f, bid, x);
        assert(values[i] == k.skip(12));
        assert(keyed(ix, w, values[i]));
        assert(k =~= p + k.skip(12));
    }
    assert forall|k: Seq<u8>| #![trigger has_key(ix.eav, k)] has_key(ix.eav, k) implies (is_one_of(
        k,
        e,
        aid,
        values,
    ) <==> starts_with(k, p)) by {
        if is_one_of(k, e, aid, values) {
            let i = choose|i: int| 0 <= i < values.len() && k == eav_key(
                e,
                aid,
                #[trigger] values[i],
            );
            assert(k.take(12) =~= p);
        }
        if starts_with(k, p) {
            let j = choose|j: int| 0 <= j < ix.eav.len() && (#[trigger] ix.eav[j]).0 == k;
            let i = j - from;
            assert(0 <= i < rows.len());
            assert(rows[i] == ix.eav[j]);
            assert(k == eav_key(e, aid, values[i]));
        }
    }
}

/// A key of another entity or attribute does not start like those of this one.
proof fn lemma_entity_prefix(e: u64, aid: u32, f: u64, bid: u32, x: Seq<u8>)
    ensures
        starts_with(eav_key(f, bid, x), entity_prefix(e, aid)) <==> (e == f && aid == bid),
{
    let k = eav_key(f, bid, x);
    lemma_eav_parts(f, bid, x);
    lemma_eav_parts(e, aid, x);
    lemma_u64_bytes(e);
    lemma_u32_bytes(aid);
    if starts_with(k, entity_prefix(e, aid)) {
        assert(k.take(12).take(8) =~= k.take(8));
        assert(entity_prefix(e, aid).take(8) =~= be_bytes(e as nat, 8));
        assert(k.take(12).subrange(8, 12) =~= k.subrange(8, 12));
        assert(entity_prefix(e, aid).subrange(8, 12) =~= be_bytes(aid as nat, 4));
    }
    if e == f && aid == bid {
        assert(k.take(12) =~= entity_prefix(e, aid));
    }
}

// ---------------------------------------------------------------------------
// Attributes
// ---------------------------------------------------------------------------

/// No id is taken twice.
pub open spec fn unique_aids(attrs: Seq<AttrRec>) -> bool {
    forall|i: int, j: int| #![trigger attrs[i], attrs[j]]
        0 <= i < j < attrs.len() ==> attrs[i].aid != attrs[j].aid
}

/// Attributes are found by name and by id, and both ways agree.
pub proof fn law_attr_lookup(attrs: Seq<AttrRec>, i: int)
    requires
        unique_names(attrs),
        unique_aids(attrs),
        0 <= i < attrs.len(),
    ensures
        find_attr(attrs, attrs[i].name) == Some((attrs[i].aid, attrs[i].props)),
        aid_name(attrs, attrs[i].aid) == Some(attrs[i].name),
    decreases attrs.len(),
{
    let init = attrs.drop_last();
    let last = attrs.len() - 1;
    if i < last {
        assert(attrs[i].name != attrs[last].name);
        assert(attrs[i].aid != attrs[last].aid);
        assert(unique_names(init)) by {
            assert forall|a: int, b: int| #![trigger init[a], init[b]]
                0 <= a < b < init.len() implies init[a].name != init[b].name by {
                assert(init[a] == attrs[a] && init[b] == attrs[b]);
            }
        }
        assert(unique_aids(init)) by {
            assert forall|a: int, b: int| #![trigger init[a], init[b]]
                0 <= a < b < init.len() implies init[a].aid != init[b].aid by {
                assert(init[a] == attrs[a] && init[b] == attrs[b]);
            }
        }
        law_attr_lookup(init, i);
        assert(init[i] == attrs[i]);
    }
}

/// A found attribute is one of the list.
proof fn lemma_find_attr(attrs: Seq<AttrRec>, name: Seq<char>)
    ensures
        find_attr(attrs, name) matches Some((aid, props)) ==> exists|i: int|
            0 <= i < attrs.len() && (#[trigger] attrs[i]) == (AttrRec { name, aid, props }),
        find_attr(attrs, name) is None ==> forall|i: int|
            0 <= i < attrs.len() ==> (#[trigger] attrs[i]).name != name,
    decreases attrs.len(),
{
    if attrs.len() > 0 {
        let init = attrs.drop_last();
        lemma_find_attr(init, name);
        if attrs.last().name == name {
            assert(attrs[attrs.len() - 1] == attrs.last());
        } else {
            if let Some((aid, props)) = find_attr(init, name) {
                let i = choose|i: int| 0 <= i < init.len() && (#[trigger] init[i]) == (AttrRec {
                    name,
                    aid,
                    props,
                });
                assert(attrs[i] == init[i]);
            } else {
                assert forall|i: int| 0 <= i < attrs.len() implies (#[trigger] attrs[i]).name
                    != name by {
                    if i < init.len() {
                        assert(init[i] == attrs[i]);
                    }
                }
            }
        }
    }
}

/// Dropping a name that is not there changes nothing.
proof fn lemma_without_absent(attrs: Seq<AttrRec>, name: Seq<char>)
    requires
        forall|i: int| 0 <= i < attrs.len() ==> (#[trigger] attrs[i]).name != name,
    ensures
        without_attr(attrs, name) == attrs,
    decreases attrs.len(),
{
    if attrs.len() > 0 {
        let init = attrs.drop_last();
        assert forall|i: int| 0 <= i < init.len() implies (#[trigger] init[i]).name != name by {
            assert(init[i] == attrs[i]);
        }
        lemma_without_absent(init, name);
        assert(attrs[attrs.len() - 1] == attrs.last());
        assert(init.push(attrs.last()) =~= attrs);
    } else {
        assert(attrs =~= Seq::empty());
    }
}

/// Dropping a name keeps every other attribute.
proof fn lemma_without_keeps(attrs: Seq<AttrRec>, name: Seq<char>, rec: AttrRec)
    requires
        attrs.contains(rec),
        rec.name != name,
    ensures
        without_attr(attrs, name).contains(rec),
    decreases attrs.len(),
{
    let init = attrs.drop_last();
    let i = choose|i: int| 0 <= i < attrs.len() && attrs[i] == rec;
    let less = without_attr(init, name);
    let all = without_attr(attrs, name);
    if i == attrs.len() - 1 {
        assert(all[all.len() - 1] == rec);
    } else {
        assert(init[i] == rec);
        lemma_without_keeps(init, name, rec);
        let j = choose|j: int| 0 <= j < less.len() && less[j] == rec;
        assert(all[j] == rec);
    }
}

/// The schema row of an attribute.
pub open spec fn schema_row(rec: AttrRec) -> Row {
    (encode_utf8(rec.name), attr_record(rec.aid, rec.props))
}

/// The schema table declares exactly the attributes.
pub open spec fn schema_agrees(ix: Indexes, attrs: Seq<AttrRec>) -> bool {
    &&& forall|i: int| 0 <= i < attrs.len() ==> has_row(ix.schema, schema_row(#[trigger] attrs[i]))
    &&& forall|row: Row| #[trigger]
        has_row(ix.schema, row) ==> exists|i: int|
            0 <= i < attrs.len() && row == schema_row(#[trigger] attrs[i])
}

/// Every attribute id was given by the counter, which still fits.
pub open spec fn aids_counted(ix: Indexes, attrs: Seq<AttrRec>) -> bool {
    counter(ix.meta, meta_next_aid()) matches Ok(c) && c <= u32::MAX && forall|i: int|
        0 <= i < attrs.len() ==> 1 <= (#[trigger] attrs[i]).aid <= c
}

/// Every giant id was given by the counter, which still fits.
pub open spec fn giants_counted(ix: Indexes) -> bool {
    counter(ix.meta, meta_next_giant()) matches Ok(g) && g <= u64::MAX && giants_agree(ix, g)
}

/// A state that the store's own operations lead to: tables sorted, names and ids apart, schema
/// and counters in step, and the three indexes in agreement.
pub open spec fn sound(db: Db) -> bool {
    &&& ix_sorted(db.ix)
    &&& unique_names(db.attrs)
    &&& unique_aids(db.attrs)
    &&& schema_agrees(db.ix, db.attrs)
    &&& aids_counted(db.ix, db.attrs)
    &&& giants_counted(db.ix)
    &&& indexes_agree(db.ix, db.attrs)
}

/// A state without rows and attributes.
pub open spec fn empty_db() -> Db {
    Db {
        ix: Indexes {
            eav: Seq::empty(),
            ave: Seq::empty(),
            vae: Seq::empty(),
            schema: Seq::empty(),
            meta: Seq::empty(),
            giants: Seq::empty(),
            giant_ids: Seq::empty(),
        },
        attrs: Seq::empty(),
    }
}

/// A new store is sound.
pub proof fn law_empty_is_sound()
    ensures
        sound(empty_db()),
{
    reveal(eav_sound);
    reveal(ave_sound);
    reveal(ave_complete);
    reveal(vae_sound);
    reveal(vae_complete);
}

/// Agreement does not depend on the schema, the counters or the order of the attributes.
proof fn lemma_agree_same(ix: Indexes, jx: Indexes, attrs: Seq<AttrRec>, more: Seq<AttrRec>)
    requires
        indexes_agree(ix, attrs),
        ix.eav == jx.eav,
        ix.ave == jx.ave,
        ix.vae == jx.vae,
        ix.giants == jx.giants,
        ix.giant_ids == jx.giant_ids,
        forall|a: u32| #[trigger] aid_known(attrs, a) ==> aid_known(more, a),
    ensures
        indexes_agree(jx, more),
{
    assert(eav_sound(jx, more)) by {
        reveal(eav_sound);
        assert forall|k: Seq<u8>| #[trigger] has_key(jx.eav, k) implies exists|
            f: u64,
            bid: u32,
            w: Datum,
            x: Seq<u8>,
        | eav_form(jx, more, k, f, bid, w, x) by {
            assert(has_key(ix.eav, k));
            let (f, bid, w, x) = choose|f: u64, bid: u32, w: Datum, x: Seq<u8>|
                eav_form(ix, attrs, k, f, bid, w, x);
            lemma_keyed_same_giants(ix, jx, w, x);
            assert(eav_form(jx, more, k, f, bid, w, x));
        }
    }
    assert(ave_sound(jx)) by {
        reveal(ave_sound);
        assert forall|k: Seq<u8>| #[trigger] has_key(jx.ave, k) implies exists|
            f: u64,
            bid: u32,
            w: Datum,
            x: Seq<u8>,
        | ave_form(jx, k, f, bid, w, x) by {
            assert(has_key(ix.ave, k));
            let (f, bid, w, x) = choose|f: u64, bid: u32, w: Datum, x: Seq<u8>|
                ave_form(ix, k, f, bid, w, x);
            lemma_keyed_same_giants(ix, jx, w, x);
            assert(ave_form(jx, k, f, bid, w, x));
        }
    }
    assert(ave_complete(jx)) by {
        reveal(ave_complete);
        assert forall|f: u64, bid: u32, w: Datum, x: Seq<u8>|
            #![trigger keyed(jx, w, x), eav_key(f, bid, x)]
            keyed(jx, w, x) && has_key(jx.eav, eav_key(f, bid, x)) implies has_key(
            jx.ave,
            ave_key(bid, x, f),
        ) by {
            lemma_keyed_same_giants(ix, jx, w, x);
        }
    }
    assert(vae_sound(jx)) by {
        reveal(vae_sound);
        assert forall|k: Seq<u8>| #[trigger] has_key(jx.vae, k) implies exists|
            t: u64,
            bid: u32,
            f: u64,
        | vae_form(jx, k, t, bid, f) by {
            assert(has_key(ix.vae, k));
            let (t, bid, f) = choose|t: u64, bid: u32, f: u64| vae_form(ix, k, t, bid, f);
            assert(vae_form(jx, k, t, bid, f));
        }
    }
    assert(vae_complete(jx)) by {
        reveal(vae_complete);
    }
}

/// Giants agree where only other tables changed.
proof fn lemma_giants_same(ix: Indexes, jx: Indexes, top: nat)
    requires
        giants_agree(ix, top),
        ix.giants == jx.giants,
        ix.giant_ids == jx.giant_ids,
    ensures
        giants_agree(jx, top),
{
    assert forall|d: Seq<u8>| #![trigger lookup(jx.giant_ids, d)]
        lookup(jx.giant_ids, d) matches Some(idb) implies exists|id: u64|
        giant_entry(jx, d, lookup(jx.giant_ids, d)->0, id) && 1 <= id <= top by {
        let idb = lookup(ix.giant_ids, d)->0;
        let id = choose|id: u64| giant_entry(ix, d, idb, id) && 1 <= id <= top;
        assert(giant_entry(jx, d, idb, id));
    }
}

/// Declaring an attribute under a free id, or anew under its own, keeps a state sound.
proof fn lemma_declare_sound(db: Db, name: Seq<char>, aid: u32, props: AttrProps)
    requires
        sound(db),
        forall|i: int| 0 <= i < db.attrs.len() ==> ((#[trigger] db.attrs[i]).name == name
            <==> db.attrs[i].aid == aid),
        aid >= 1,
        counter(db.ix.meta, meta_next_aid()) matches Ok(c) && aid <= c,
    ensures
        sound(declare(db, name, aid, props)),
        find_attr(declare(db, name, aid, props).attrs, name) == Some((aid, props)),
        forall|other: Seq<char>| other != name ==> #[trigger] find_attr(
            declare(db, name, aid, props).attrs,
            other,
        ) == find_attr(db.attrs, other),
        aid_known(declare(db, name, aid, props).attrs, aid),
{
    let rec = AttrRec { name, aid, props };
    let next = declare(db, name, aid, props);
    let less = without_attr(db.attrs, name);
    let all = next.attrs;
    crate::store::lemma_without_attr(db.attrs, name);
    crate::store::lemma_set_attr_unique(db.attrs, rec);
    assert forall|i: int| 0 <= i < less.len() implies (#[trigger] less[i]).aid != aid
        && db.attrs.contains(less[i]) by {
        let j = choose|j: int| 0 <= j < db.attrs.len() && db.attrs[j] == less[i];
        assert(db.attrs[j].name != name);
    }
    assert(unique_aids(all)) by {
        assert forall|i: int, j: int| #![trigger all[i], all[j]]
            0 <= i < j < all.len() implies all[i].aid != all[j].aid by {
            assert(all[i] == less[i]);
            if j < less.len() {
                assert(all[j] == less[j]);
                let a = choose|a: int| 0 <= a < db.attrs.len() && db.attrs[a] == less[i];
                let b = choose|b: int| 0 <= b < db.attrs.len() && db.attrs[b] == less[j];
                assert(less[i].name != less[j].name);
                if a < b {
                    assert(db.attrs[a].aid != db.attrs[b].aid);
                } else {
                    assert(db.attrs[b].aid != db.attrs[a].aid);
                }
            }
        }
    }
    assert(all[all.len() - 1] == rec);
    assert(sorted_rows(db.ix.rows(Part::Schema), false));
    let key = encode_utf8(name);
    let val = attr_record(aid, props);
    lemma_put_sorted(db.ix.schema, false, key, val);
    assert forall|p: Part| sorted_rows(#[trigger] next.ix.rows(p), false) by {
        assert(sorted_rows(db.ix.rows(p), false));
    }
    assert(schema_agrees(next.ix, all)) by {
        assert forall|i: int| 0 <= i < all.len() implies has_row(
            next.ix.schema,
            schema_row(#[trigger] all[i]),
        ) by {
            crate::rows::law_put_contents(db.ix.schema, false, key, val, schema_row(all[i]));
            if i < less.len() {
                assert(all[i] == less[i]);
                let j = choose|j: int| 0 <= j < db.attrs.len() && db.attrs[j] == less[i];
                assert(has_row(db.ix.schema, schema_row(db.attrs[j])));
                if encode_utf8(less[i].name) == key {
                    crate::text::lemma_utf8_injective(less[i].name, name);
                }
            }
        }
        assert forall|row: Row| #[trigger] has_row(next.ix.schema, row) implies exists|i: int|
            0 <= i < all.len() && row == schema_row(#[trigger] all[i]) by {
            crate::rows::law_put_contents(db.ix.schema, false, key, val, row);
            if row == (key, val) {
                assert(row == schema_row(all[all.len() - 1]));
            } else {
                let j = choose|j: int| 0 <= j < db.attrs.len() && row == schema_row(
                    #[trigger] db.attrs[j],
                );
                assert(db.attrs[j].name != name);
                assert(db.attrs.contains(db.attrs[j]));
                lemma_without_keeps(db.attrs, name, db.attrs[j]);
                let i = choose|i: int| 0 <= i < less.len() && less[i] == db.attrs[j];
                assert(all[i] == less[i]);
            }
        }
    }
    assert(aids_counted(next.ix, all)) by {
        let c = counter(db.ix.meta, meta_next_aid())->Ok_0;
        assert forall|i: int| 0 <= i < all.len() implies 1 <= (#[trigger] all[i]).aid <= c by {
            if i < less.len() {
                assert(all[i] == less[i]);
                let j = choose|j: int| 0 <= j < db.attrs.len() && db.attrs[j] == less[i];
                assert(1 <= db.attrs[j].aid <= c);
            }
        }
    }
    let g = counter(db.ix.meta, meta_next_giant())->Ok_0;
    lemma_giants_same(db.ix, next.ix, g);
    assert forall|a: u32| #[trigger] aid_known(db.attrs, a) implies aid_known(all, a) by {
        let k = choose|k: int| 0 <= k < db.attrs.len() && (#[trigger] db.attrs[k]).aid == a;
        if db.attrs[k].name == name {
            assert(all[all.len() - 1].aid == a);
        } else {
            assert(db.attrs.contains(db.attrs[k]));
            lemma_without_keeps(db.attrs, name, db.attrs[k]);
            let i = choose|i: int| 0 <= i < less.len() && less[i] == db.attrs[k];
            assert(all[i] == less[i]);
            assert(all[i].aid == a);
        }
    }
    lemma_agree_same(db.ix, next.ix, db.attrs, all);
    law_attr_lookup(all, all.len() - 1);
    assert forall|other: Seq<char>| other != name implies #[trigger] find_attr(all, other)
        == find_attr(db.attrs, other) by {
        lemma_find_attr(db.attrs, other);
        lemma_find_attr(all, other);
        if let Some((a, p)) = find_attr(db.attrs, other) {
            let r = AttrRec { name: other, aid: a, props: p };
            assert(db.attrs.contains(r));
            lemma_without_keeps(db.attrs, name, r);
            let i = choose|i: int| 0 <= i < less.len() && less[i] == r;
            assert(all[i] == r);
            law_attr_lookup(all, i);
        } else {
            if let Some((a, p)) = find_attr(all, other) {
                let i = choose|i: int| 0 <= i < all.len() && (#[trigger] all[i]) == (AttrRec {
                    name: other,
                    aid: a,
                    props: p,
                });
                assert(all[i] == less[i]);
                let j = choose|j: int| 0 <= j < db.attrs.len() && db.attrs[j] == less[i];
                assert(db.attrs[j].name == other);
            }
        }
    }
}

/// The counters after one was raised.
proof fn lemma_bump_counters(db: Db, key: Seq<u8>)
    requires
        ix_sorted(db.ix),
        key == meta_next_aid() || key == meta_next_giant(),
        counter(db.ix.meta, key) matches Ok(c) && c < u64::MAX,
    ensures
        bump(db, key) matches Ok((next, n)) && {
            &&& n == counter(db.ix.meta, key)->Ok_0 + 1
            &&& ix_sorted(next.ix)
            &&& counter(next.ix.meta, key) == Ok::<nat, Fault>(n)
            &&& forall|other: Seq<u8>| other != key ==> #[trigger] counter(next.ix.meta, other)
                == counter(db.ix.meta, other)
            &&& forall|other: Seq<u8>| other != key ==> #[trigger] lookup(next.ix.meta, other)
                == lookup(db.ix.meta, other)
        },
{
    assert(sorted_rows(db.ix.rows(Part::Meta), false));
    let (next, n) = bump(db, key)->Ok_0;
    lemma_put_sorted(db.ix.meta, false, key, be_bytes(n, 8));
    assert forall|p: Part| sorted_rows(#[trigger] next.ix.rows(p), false) by {
        assert(sorted_rows(db.ix.rows(p), false));
    }
    law_lookup_after_put(db.ix.meta, key, be_bytes(n, 8), key);
    lemma_pow256_8();
    lemma_be_len(n, 8);
    lemma_be_round_trip(n, 8);
    assert forall|other: Seq<u8>| other != key implies #[trigger] lookup(next.ix.meta, other)
        == lookup(db.ix.meta, other) by {
        law_lookup_after_put(db.ix.meta, key, be_bytes(n, 8), other);
    }
    assert forall|other: Seq<u8>| other != key implies #[trigger] counter(next.ix.meta, other)
        == counter(db.ix.meta, other) by {
        assert(lookup(next.ix.meta, other) == lookup(db.ix.meta, other));
    }
}

/// The meta keys differ.
proof fn lemma_meta_keys_differ()
    ensures
        meta_max_eid() != meta_next_aid(),
        meta_max_eid() != meta_next_giant(),
        meta_next_aid() != meta_next_giant(),
{
    reveal_strlit("max-eid");
    reveal_strlit("next-aid");
    reveal_strlit("next-giant");
    encode_utf8_decode_utf8("max-eid"@);
    encode_utf8_decode_utf8("next-aid"@);
    encode_utf8_decode_utf8("next-giant"@);
}

/// One more attribute id can be given.
pub open spec fn aid_room(ix: Indexes) -> bool {
    counter(ix.meta, meta_next_aid()) matches Ok(c) ==> c < u32::MAX
}

/// One more giant id can be given.
pub open spec fn giant_room(ix: Indexes) -> bool {
    counter(ix.meta, meta_next_giant()) matches Ok(g) ==> g < u64::MAX
}

/// Interning an attribute keeps a state sound; it gives the attribute its id and changes no
/// other attribute.
pub proof fn law_intern(db: Db, name: Seq<char>, props: Option<AttrProps>)
    requires
        sound(db),
        aid_room(db.ix),
    ensures
        intern(db, name, props) matches Ok((next, aid, p)) && {
            &&& sound(next)
            &&& find_attr(next.attrs, name) == Some((aid, p))
            &&& forall|other: Seq<char>| other != name ==> #[trigger] find_attr(next.attrs, other)
                == find_attr(db.attrs, other)
            &&& find_attr(db.attrs, name) matches Some((old, q)) ==> aid == old && p == (match props {
                Some(r) => r,
                None => q,
            })
            &&& find_attr(db.attrs, name) is None ==> !aid_known(db.attrs, aid) && p == (
            match props {
                Some(r) => r,
                None => crate::store_model::default_props(),
            })
            &&& aid_known(next.attrs, aid)
            &&& next.ix.eav == db.ix.eav
            &&& next.ix.ave == db.ix.ave
            &&& next.ix.vae == db.ix.vae
            &&& next.ix.giants == db.ix.giants
            &&& next.ix.giant_ids == db.ix.giant_ids
            &&& counter(next.ix.meta, meta_next_giant()) == counter(db.ix.meta, meta_next_giant())
        },
{
    lemma_find_attr(db.attrs, name);
    lemma_meta_keys_differ();
    match find_attr(db.attrs, name) {
        Some((aid, q)) => {
            let i = choose|i: int| 0 <= i < db.attrs.len() && (#[trigger] db.attrs[i]) == (AttrRec {
                name,
                aid,
                props: q,
            });
            assert(db.attrs[i].aid == aid);
            assert(aid_known(db.attrs, aid));
            assert forall|j: int| 0 <= j < db.attrs.len() implies ((#[trigger] db.attrs[j]).name
                == name <==> db.attrs[j].aid == aid) by {
                if j < i {
                    assert(db.attrs[j].name != db.attrs[i].name);
                    assert(db.attrs[j].aid != db.attrs[i].aid);
                } else if i < j {
                    assert(db.attrs[i].name != db.attrs[j].name);
                    assert(db.attrs[i].aid != db.attrs[j].aid);
                }
            }
            if let Some(p) = props {
                lemma_declare_sound(db, name, aid, p);
            }
        },
        None => {
            lemma_bump_counters(db, meta_next_aid());
            let (mid, n) = bump(db, meta_next_aid())->Ok_0;
            let aid = (n % 0x1_0000_0000) as u32;
            assert(aid == n);
            assert(counter(mid.ix.meta, meta_next_giant()) == counter(
                db.ix.meta,
                meta_next_giant(),
            ));
            lemma_giants_same(
                db.ix,
                mid.ix,
                counter(db.ix.meta, meta_next_giant())->Ok_0,
            );
            lemma_agree_same(db.ix, mid.ix, db.attrs, db.attrs);
            assert(sound(mid));
            if aid_known(db.attrs, aid) {
                let k = choose|k: int| 0 <= k < db.attrs.len() && (#[trigger] db.attrs[k]).aid
                    == aid;
                assert(db.attrs[k].aid <= n - 1);
            }
            assert forall|j: int| 0 <= j < mid.attrs.len() implies ((#[trigger] mid.attrs[j]).name
                == name <==> mid.attrs[j].aid == aid) by {
                assert(db.attrs[j].name != name);
                assert(db.attrs[j].aid <= n - 1);
            }
            let p = match props {
                Some(r) => r,
                None => crate::store_model::default_props(),
            };
            lemma_declare_sound(mid, name, aid, p);
        },
    }
}

/// Interning an attribute leaves the largest entity id alone.
pub proof fn law_intern_keeps_largest(db: Db, name: Seq<char>, props: Option<AttrProps>)
    requires
        sound(db),
        aid_room(db.ix),
    ensures
        intern(db, name, props) matches Ok((next, _, _)) ==> crate::store_model::stored_max_eid(
            next.ix.meta,
        ) == crate::store_model::stored_max_eid(db.ix.meta),
{
    if find_attr(db.attrs, name) is None {
        lemma_meta_keys_differ();
        lemma_bump_counters(db, meta_next_aid());
        let (mid, _) = bump(db, meta_next_aid())->Ok_0;
        assert(lookup(mid.ix.meta, meta_max_eid()) == lookup(db.ix.meta, meta_max_eid()));
    }
}

// ---------------------------------------------------------------------------
// Giants
// ---------------------------------------------------------------------------

/// The state after a new giant was stored under the next id.
spec fn giant_added(ix: Indexes, jx: Indexes, tag: u8, raw: Seq<u8>, id: u64) -> bool {
    &&& jx.eav == ix.eav
    &&& jx.ave == ix.ave
    &&& jx.vae == ix.vae
    &&& jx.giants == put_row(ix.giants, false, be_bytes(id as nat, 8), seq![tag] + raw)
    &&& jx.giant_ids == put_row(ix.giant_ids, false, sha256_digest(raw), be_bytes(id as nat, 8))
}

/// Storing a new giant keeps every stored giant.
proof fn lemma_giant_added_keeps(
    ix: Indexes,
    jx: Indexes,
    top: nat,
    tag: u8,
    raw: Seq<u8>,
    id: u64,
    v: Datum,
    venc: Seq<u8>,
)
    requires
        ix_sorted(ix),
        giants_agree(ix, top),
        id == top + 1,
        lookup(ix.giant_ids, sha256_digest(raw)) is None,
        giant_added(ix, jx, tag, raw, id),
        keyed(ix, v, venc),
    ensures
        keyed(jx, v, venc),
{
    assert(sorted_rows(ix.rows(Part::Giants), false));
    assert(sorted_rows(ix.rows(Part::GiantIds), false));
    if encoding(v).len() > GIANT_THRESHOLD {
        let (gtag, graw) = giant_raw(v)->0;
        let gid = choose|gid: u64| #[trigger] giant_stored(ix, graw, gid) && venc == giant_key(
            gtag,
            graw,
            gid as nat,
        );
        let d = sha256_digest(graw);
        let idb = lookup(ix.giant_ids, d)->0;
        let known = choose|k: u64| giant_entry(ix, d, idb, k) && 1 <= k <= top;
        lemma_u64_bytes(gid);
        lemma_u64_bytes(known);
        lemma_u64_bytes(id);
        assert(gid == known);
        law_lookup_after_put(ix.giant_ids, sha256_digest(raw), be_bytes(id as nat, 8), d);
        law_lookup_after_put(
            ix.giants,
            be_bytes(id as nat, 8),
            seq![tag] + raw,
            be_bytes(gid as nat, 8),
        );
        assert(giant_stored(jx, graw, gid));
    }
}

/// Storing a new giant keeps the giants and the indexes in agreement.
proof fn lemma_giant_added_agrees(
    ix: Indexes,
    jx: Indexes,
    attrs: Seq<AttrRec>,
    top: nat,
    tag: u8,
    raw: Seq<u8>,
    id: u64,
)
    requires
        ix_sorted(ix),
        giants_agree(ix, top),
        id == top + 1,
        lookup(ix.giant_ids, sha256_digest(raw)) is None,
        giant_added(ix, jx, tag, raw, id),
        indexes_agree(ix, attrs),
    ensures
        giants_agree(jx, id as nat),
        indexes_agree(jx, attrs),
        giant_stored(jx, raw, id),
        forall|f: u64, bid: u32, w: Datum, x: Seq<u8>|
            #![trigger keyed(jx, w, x), eav_key(f, bid, x)]
            keyed(jx, w, x) && has_key(ix.eav, eav_key(f, bid, x)) ==> keyed(ix, w, x),
        forall|w: Datum, x: Seq<u8>| #[trigger] keyed(ix, w, x) ==> keyed(jx, w, x),
{
    assert(sorted_rows(ix.rows(Part::Giants), false));
    assert(sorted_rows(ix.rows(Part::GiantIds), false));
    lemma_u64_bytes(id);
    let idb = be_bytes(id as nat, 8);
    law_lookup_after_put(ix.giant_ids, sha256_digest(raw), idb, sha256_digest(raw));
    law_lookup_after_put(ix.giants, idb, seq![tag] + raw, idb);
    assert((seq![tag] + raw).skip(1) =~= raw);
    assert(giant_stored(jx, raw, id));
    assert forall|d: Seq<u8>| #![trigger lookup(jx.giant_ids, d)]
        lookup(jx.giant_ids, d) matches Some(b) implies exists|k: u64|
        giant_entry(jx, d, lookup(jx.giant_ids, d)->0, k) && 1 <= k <= id by {
        law_lookup_after_put(ix.giant_ids, sha256_digest(raw), idb, d);
        let found = lookup(jx.giant_ids, d)->0;
        if d == sha256_digest(raw) {
            assert(giant_entry(jx, d, found, id) && 1 <= id <= id);
        } else {
            let b = lookup(ix.giant_ids, d)->0;
            let k = choose|k: u64| giant_entry(ix, d, b, k) && 1 <= k <= top;
            lemma_u64_bytes(k);
            law_lookup_after_put(ix.giants, idb, seq![tag] + raw, b);
            assert(found == b);
            assert(giant_entry(jx, d, found, k) && 1 <= k <= id);
        }
    }
    assert forall|w: Datum, x: Seq<u8>| #[trigger] keyed(ix, w, x) implies keyed(jx, w, x) by {
        lemma_giant_added_keeps(ix, jx, top, tag, raw, id, w, x);
    }
    assert forall|f: u64, bid: u32, w: Datum, x: Seq<u8>|
        #![trigger keyed(jx, w, x), eav_key(f, bid, x)]
        keyed(jx, w, x) && has_key(ix.eav, eav_key(f, bid, x)) implies keyed(ix, w, x) by {
        let (g, cid, u, y) = lemma_eav_form(ix, attrs, eav_key(f, bid, x));
        lemma_eav_injective(f, bid, x, g, cid, y);
        law_key_form_is_unique(jx, w, x, u, y);
    }
    assert(eav_sound(jx, attrs)) by {
        reveal(eav_sound);
        assert forall|k: Seq<u8>| #[trigger] has_key(jx.eav, k) implies exists|
            f: u64,
            bid: u32,
            w: Datum,
            x: Seq<u8>,
        | eav_form(jx, attrs, k, f, bid, w, x) by {
            assert(has_key(ix.eav, k));
            let (f, bid, w, x) = choose|f: u64, bid: u32, w: Datum, x: Seq<u8>|
                eav_form(ix, attrs, k, f, bid, w, x);
            assert(eav_form(jx, attrs, k, f, bid, w, x));
        }
    }
    assert(ave_sound(jx)) by {
        reveal(ave_sound);
        assert forall|k: Seq<u8>| #[trigger] has_key(jx.ave, k) implies exists|
            f: u64,
            bid: u32,
            w: Datum,
            x: Seq<u8>,
        | ave_form(jx, k, f, bid, w, x) by {
            assert(has_key(ix.ave, k));
            let (f, bid, w, x) = choose|f: u64, bid: u32, w: Datum, x: Seq<u8>|
                ave_form(ix, k, f, bid, w, x);
            assert(ave_form(jx, k, f, bid, w, x));
        }
    }
    assert(ave_complete(jx)) by {
        reveal(ave_complete);
    }
    assert(vae_sound(jx)) by {
        reveal(vae_sound);
        assert forall|k: Seq<u8>| #[trigger] has_key(jx.vae, k) implies exists|
            t: u64,
            bid: u32,
            f: u64,
        | vae_form(jx, k, t, bid, f) by {
            assert(has_key(ix.vae, k));
            let (t, bid, f) = choose|t: u64, bid: u32, f: u64| vae_form(ix, k, t, bid, f);
            assert(vae_form(jx, k, t, bid, f));
        }
    }
    assert(vae_complete(jx)) by {
        reveal(vae_complete);
    }
}

/// Whether a value can be stored: it is inline, or its kind may overflow.
pub open spec fn encodable(v: Datum) -> bool {
    encoding(v).len() <= GIANT_THRESHOLD || giant_raw(v) is Some
}

/// Storing a value's key succeeds exactly for values that can be stored; it keeps a state sound
/// and every key form in use, and gives the value its key form. Equal values share it.
pub proof fn law_write_key(db: Db, v: Datum)
    requires
        sound(db),
        storable(v),
        collision_free(db.ix, v),
        giant_room(db.ix),
    ensures
        write_key(db, v) is Ok <==> encodable(v),
        write_key(db, v) matches Ok((next, venc)) ==> {
            &&& sound(next)
            &&& keyed(next.ix, v, venc)
            &&& next.attrs == db.attrs
            &&& next.ix.eav == db.ix.eav
            &&& next.ix.ave == db.ix.ave
            &&& next.ix.vae == db.ix.vae
            &&& forall|f: u64, bid: u32, w: Datum, x: Seq<u8>|
                #![trigger keyed(next.ix, w, x), eav_key(f, bid, x)]
                keyed(next.ix, w, x) && has_key(db.ix.eav, eav_key(f, bid, x)) ==> keyed(
                    db.ix,
                    w,
                    x,
                )
            &&& forall|w: Datum, x: Seq<u8>| #[trigger] keyed(db.ix, w, x) ==> keyed(next.ix, w, x)
            &&& counter(next.ix.meta, meta_next_aid()) == counter(db.ix.meta, meta_next_aid())
        },
{
    if encoding(v).len() > GIANT_THRESHOLD && giant_raw(v) is Some {
        let (tag, raw) = giant_raw(v)->0;
        let d = sha256_digest(raw);
        let g = counter(db.ix.meta, meta_next_giant())->Ok_0;
        match lookup(db.ix.giant_ids, d) {
            Some(idb) => {
                let id = choose|id: u64| giant_entry(db.ix, d, idb, id) && 1 <= id <= g;
                lemma_u64_bytes(id);
                assert(giant_stored(db.ix, raw, id));
            },
            None => {
                lemma_meta_keys_differ();
                lemma_bump_counters(db, meta_next_giant());
                let (mid, n) = bump(db, meta_next_giant())->Ok_0;
                let (next, venc) = write_key(db, v)->Ok_0;
                let id = n as u64;
                assert(sorted_rows(mid.ix.rows(Part::Giants), false));
                assert(sorted_rows(mid.ix.rows(Part::GiantIds), false));
                lemma_put_sorted(db.ix.giants, false, be_bytes(n, 8), seq![tag] + raw);
                lemma_put_sorted(db.ix.giant_ids, false, d, be_bytes(n, 8));
                assert forall|p: Part| sorted_rows(#[trigger] next.ix.rows(p), false) by {
                    assert(sorted_rows(mid.ix.rows(p), false));
                }
                lemma_giant_added_agrees(db.ix, next.ix, db.attrs, g, tag, raw, id);
                assert(venc == giant_key(tag, raw, id as nat));
                assert(counter(next.ix.meta, meta_next_aid()) == counter(
                    db.ix.meta,
                    meta_next_aid(),
                ));
                assert(schema_agrees(next.ix, next.attrs));
            },
        }
    }
}

// ---------------------------------------------------------------------------
// What the store holds
// ---------------------------------------------------------------------------

/// `eav` has the value for the entity and attribute id.
pub open spec fn datom_at(ix: Indexes, e: u64, aid: u32, v: Datum) -> bool {
    exists|venc: Seq<u8>| #[trigger] keyed(ix, v, venc) && has_key(ix.eav, eav_key(e, aid, venc))
}

/// The store holds the datom.
pub open spec fn has_datom(db: Db, d: DatomView) -> bool {
    find_attr(db.attrs, d.a) matches Some((aid, _)) && datom_at(db.ix, d.e, aid, d.v)
}

/// Every datom in `eav` has a known attribute.
proof fn lemma_datom_known(ix: Indexes, attrs: Seq<AttrRec>, e: u64, aid: u32, v: Datum)
    requires
        indexes_agree(ix, attrs),
        datom_at(ix, e, aid, v),
    ensures
        aid_known(attrs, aid),
{
    let x = choose|x: Seq<u8>| #[trigger] keyed(ix, v, x) && has_key(ix.eav, eav_key(e, aid, x));
    let (f, bid, w, y) = lemma_eav_form(ix, attrs, eav_key(e, aid, x));
    lemma_eav_injective(e, aid, x, f, bid, y);
}

/// Interning an attribute changes no datom.
pub proof fn law_intern_keeps_datoms(db: Db, name: Seq<char>, props: Option<AttrProps>, d: DatomView)
    requires
        sound(db),
        aid_room(db.ix),
    ensures
        intern(db, name, props) matches Ok((next, _, _)) && (has_datom(next, d) <==> has_datom(
            db,
            d,
        )),
{
    law_intern(db, name, props);
    let (next, aid, _) = intern(db, name, props)->Ok_0;
    assert forall|e: u64, bid: u32, v: Datum| datom_at(next.ix, e, bid, v) == #[trigger] datom_at(
        db.ix,
        e,
        bid,
        v,
    ) by {
        if datom_at(db.ix, e, bid, v) {
            let x = choose|x: Seq<u8>| #[trigger] keyed(db.ix, v, x) && has_key(
                db.ix.eav,
                eav_key(e, bid, x),
            );
            lemma_keyed_same_giants(db.ix, next.ix, v, x);
            assert(keyed(next.ix, v, x));
        }
        if datom_at(next.ix, e, bid, v) {
            let x = choose|x: Seq<u8>| #[trigger] keyed(next.ix, v, x) && has_key(
                next.ix.eav,
                eav_key(e, bid, x),
            );
            lemma_keyed_same_giants(db.ix, next.ix, v, x);
            assert(keyed(db.ix, v, x));
        }
    }
    if d.a == name && find_attr(db.attrs, name) is None {
        if datom_at(db.ix, d.e, aid, d.v) {
            lemma_datom_known(db.ix, db.attrs, d.e, aid, d.v);
        }
        assert(datom_at(next.ix, d.e, aid, d.v) == datom_at(db.ix, d.e, aid, d.v));
    } else if find_attr(db.attrs, d.a) is Some {
        let bid = (find_attr(db.attrs, d.a)->0).0;
        assert(datom_at(next.ix, d.e, bid, d.v) == datom_at(db.ix, d.e, bid, d.v));
    }
}

/// Different attributes have different ids.
pub proof fn lemma_aids_apart(attrs: Seq<AttrRec>, a: Seq<char>, b: Seq<char>)
    requires
        unique_names(attrs),
        unique_aids(attrs),
        find_attr(attrs, a) is Some,
        find_attr(attrs, b) is Some,
    ensures
        (find_attr(attrs, a)->0).0 == (find_attr(attrs, b)->0).0 <==> a == b,
{
    lemma_find_attr(attrs, a);
    lemma_find_attr(attrs, b);
    let (x, p) = find_attr(attrs, a)->0;
    let (y, q) = find_attr(attrs, b)->0;
    let i = choose|i: int| 0 <= i < attrs.len() && (#[trigger] attrs[i]) == (AttrRec {
        name: a,
        aid: x,
        props: p,
    });
    let j = choose|j: int| 0 <= j < attrs.len() && (#[trigger] attrs[j]) == (AttrRec {
        name: b,
        aid: y,
        props: q,
    });
    if i < j {
        assert(attrs[i].aid != attrs[j].aid);
    } else if j < i {
        assert(attrs[j].aid != attrs[i].aid);
    }
}

/// The state without the datoms of one entity and attribute.
pub open spec fn cleared(db: Db, e: u64, aid: u32) -> Db {
    Db { ix: delete_all(db.ix, e, aid, entity_values(db.ix.eav, e, aid)), ..db }
}

/// Clearing keeps a state sound and drops exactly the datoms of the entity and attribute.
proof fn lemma_cleared(db: Db, e: u64, a: Seq<char>, aid: u32)
    requires
        sound(db),
        find_attr(db.attrs, a) matches Some((x, _)) && x == aid,
    ensures
        sound(cleared(db, e, aid)),
        only_indexes_changed(db.ix, cleared(db, e, aid).ix),
        forall|d: DatomView| #[trigger]
            has_datom(cleared(db, e, aid), d) <==> (has_datom(db, d) && !(d.e == e && d.a == a)),
{
    let next = cleared(db, e, aid);
    let values = entity_values(db.ix.eav, e, aid);
    lemma_entity_values(db.ix, db.attrs, e, aid);
    lemma_delete_all_agrees(db.ix, db.attrs, e, aid, values);
    lemma_giants_same(db.ix, next.ix, counter(db.ix.meta, meta_next_giant())->Ok_0);
    assert(schema_agrees(next.ix, next.attrs));
    assert forall|d: DatomView| #[trigger] has_datom(next, d) <==> (has_datom(db, d) && !(d.e == e
        && d.a == a)) by {
        if let Some((bid, _)) = find_attr(db.attrs, d.a) {
            lemma_aids_apart(db.attrs, a, d.a);
            if datom_at(db.ix, d.e, bid, d.v) {
                let x = choose|x: Seq<u8>| #[trigger] keyed(db.ix, d.v, x) && has_key(
                    db.ix.eav,
                    eav_key(d.e, bid, x),
                );
                lemma_keyed_same_giants(db.ix, next.ix, d.v, x);
                lemma_entity_prefix(e, aid, d.e, bid, x);
                assert(keyed(next.ix, d.v, x));
                assert(has_key(next.ix.eav, eav_key(d.e, bid, x)) <==> !(d.e == e && bid == aid));
            }
            if datom_at(next.ix, d.e, bid, d.v) {
                let x = choose|x: Seq<u8>| #[trigger] keyed(next.ix, d.v, x) && has_key(
                    next.ix.eav,
                    eav_key(d.e, bid, x),
                );
                lemma_keyed_same_giants(db.ix, next.ix, d.v, x);
                lemma_entity_prefix(e, aid, d.e, bid, x);
                assert(keyed(db.ix, d.v, x));
                assert(has_key(db.ix.eav, eav_key(d.e, bid, x)));
            }
        }
    }
}

/// Storing a value's key changes no datom.
proof fn lemma_write_key_keeps_datoms(db: Db, v: Datum, d: DatomView)
    requires
        sound(db),
        storable(v),
        collision_free(db.ix, v),
        giant_room(db.ix),
        write_key(db, v) is Ok,
    ensures
        has_datom((write_key(db, v)->Ok_0).0, d) <==> has_datom(db, d),
{
    law_write_key(db, v);
    let (next, _) = write_key(db, v)->Ok_0;
    if let Some((bid, _)) = find_attr(db.attrs, d.a) {
        if datom_at(db.ix, d.e, bid, d.v) {
            let x = choose|x: Seq<u8>| #[trigger] keyed(db.ix, d.v, x) && has_key(
                db.ix.eav,
                eav_key(d.e, bid, x),
            );
            assert(keyed(next.ix, d.v, x));
        }
        if datom_at(next.ix, d.e, bid, d.v) {
            let x = choose|x: Seq<u8>| #[trigger] keyed(next.ix, d.v, x) && has_key(
                next.ix.eav,
                eav_key(d.e, bid, x),
            );
            assert(keyed(db.ix, d.v, x));
        }
    }
}

/// Asserting a datom: the store then holds it and what it held before, except that a
/// cardinality-one attribute keeps no other value of the entity. It succeeds exactly for values
/// that can be stored.
pub proof fn law_add(db: Db, e: u64, a: Seq<char>, v: Datum)
    requires
        sound(db),
        storable(v),
        collision_free(db.ix, v),
        aid_room(db.ix),
        giant_room(db.ix),
    ensures
        apply(db, OpView::Add { e, a, v }) is Ok <==> encodable(v),
        apply(db, OpView::Add { e, a, v }) matches Ok(next) ==> {
            &&& sound(next)
            &&& forall|d: DatomView| #[trigger]
                has_datom(next, d) <==> (d == (DatomView { e, a, v }) || (has_datom(db, d) && !(
                d.e == e && d.a == a && !keeps_many(db.attrs, a))))
        },
{
    reveal(apply);
    law_intern(db, a, None);
    let (named, aid, props) = intern(db, a, None)->Ok_0;
    assert(props.cardinality_many == keeps_many(db.attrs, a));
    let mid = if props.cardinality_many {
        named
    } else {
        cleared(named, e, aid)
    };
    lemma_cleared(named, e, a, aid);
    assert(collision_free(mid.ix, v));
    law_write_key(mid, v);
    if let Ok((keyed_db, venc)) = write_key(mid, v) {
        lemma_insert_agrees(keyed_db.ix, keyed_db.attrs, e, aid, venc, v);
        let next = Db { ix: insert_datom(keyed_db.ix, e, aid, venc, v), ..keyed_db };
        lemma_giants_same(
            keyed_db.ix,
            next.ix,
            counter(keyed_db.ix.meta, meta_next_giant())->Ok_0,
        );
        assert(schema_agrees(next.ix, next.attrs));
        assert(sound(next));
        assert forall|d: DatomView| #[trigger] has_datom(next, d) <==> (d == (DatomView { e, a, v })
            || (has_datom(db, d) && !(d.e == e && d.a == a && !keeps_many(db.attrs, a)))) by {
            law_intern_keeps_datoms(db, a, None, d);
            lemma_write_key_keeps_datoms(mid, v, d);
            assert(has_datom(keyed_db, d) <==> (has_datom(db, d) && !(d.e == e && d.a == a
                && !keeps_many(db.attrs, a))));
            lemma_inserted(keyed_db, next, e, a, aid, venc, v, d);
        }
    }
}

/// Whether the attribute keeps every asserted value.
pub open spec fn keeps_many(attrs: Seq<AttrRec>, a: Seq<char>) -> bool {
    find_attr(attrs, a) matches Some((_, p)) && p.cardinality_many
}

proof fn lemma_inserted(
    db: Db,
    next: Db,
    e: u64,
    a: Seq<char>,
    aid: u32,
    venc: Seq<u8>,
    v: Datum,
    d: DatomView,
)
    requires
        sound(db),
        next == (Db { ix: insert_datom(db.ix, e, aid, venc, v), ..db }),
        keyed(db.ix, v, venc),
        find_attr(db.attrs, a) matches Some((x, _)) && x == aid,
        aid_known(db.attrs, aid),
    ensures
        has_datom(next, d) <==> (d == (DatomView { e, a, v }) || has_datom(db, d)),
{
    lemma_insert_agrees(db.ix, db.attrs, e, aid, venc, v);
    if let Some((bid, _)) = find_attr(db.attrs, d.a) {
        lemma_aids_apart(db.attrs, a, d.a);
        if d == (DatomView { e, a, v }) {
            lemma_keyed_same_giants(db.ix, next.ix, v, venc);
            assert(keyed(next.ix, v, venc));
            assert(has_key(next.ix.eav, eav_key(e, aid, venc)));
        }
        if datom_at(db.ix, d.e, bid, d.v) {
            let x = choose|x: Seq<u8>| #[trigger] keyed(db.ix, d.v, x) && has_key(
                db.ix.eav,
                eav_key(d.e, bid, x),
            );
            lemma_keyed_same_giants(db.ix, next.ix, d.v, x);
            assert(keyed(next.ix, d.v, x));
            assert(has_key(next.ix.eav, eav_key(d.e, bid, x)));
        }
        if datom_at(next.ix, d.e, bid, d.v) {
            let x = choose|x: Seq<u8>| #[trigger] keyed(next.ix, d.v, x) && has_key(
                next.ix.eav,
                eav_key(d.e, bid, x),
            );
            lemma_keyed_same_giants(db.ix, next.ix, d.v, x);
            if eav_key(d.e, bid, x) == eav_key(e, aid, venc) {
                lemma_eav_injective(d.e, bid, x, e, aid, venc);
                law_key_form_is_unique(db.ix, d.v, x, v, venc);
                assert(d == (DatomView { e, a, v }));
            } else {
                assert(keyed(db.ix, d.v, x));
            }
        }
    }
}

/// Retracting a datom: the store then holds what it held before but for the datom; retracting
/// one that is absent drops nothing. It succeeds exactly for values that can be stored.
pub proof fn law_retract(db: Db, e: u64, a: Seq<char>, v: Datum)
    requires
        sound(db),
        storable(v),
        collision_free(db.ix, v),
        aid_room(db.ix),
        giant_room(db.ix),
    ensures
        apply(db, OpView::Retract { e, a, v }) is Ok <==> encodable(v),
        apply(db, OpView::Retract { e, a, v }) matches Ok(next) ==> {
            &&& sound(next)
            &&& forall|d: DatomView| #[trigger]
                has_datom(next, d) <==> (has_datom(db, d) && d != (DatomView { e, a, v }))
        },
{
    reveal(apply);
    law_intern(db, a, None);
    let (named, aid, _) = intern(db, a, None)->Ok_0;
    assert(collision_free(named.ix, v));
    law_write_key(named, v);
    if let Ok((mid, venc)) = write_key(named, v) {
        lemma_delete_agrees(mid.ix, mid.attrs, e, aid, venc, v);
        let next = Db { ix: delete_datom(mid.ix, e, aid, venc, v), ..mid };
        lemma_giants_same(mid.ix, next.ix, counter(mid.ix.meta, meta_next_giant())->Ok_0);
        assert(schema_agrees(next.ix, next.attrs));
        assert(sound(next));
        assert forall|d: DatomView| #[trigger] has_datom(next, d) <==> (has_datom(db, d) && d != (
        DatomView { e, a, v })) by {
            law_intern_keeps_datoms(db, a, None, d);
            lemma_write_key_keeps_datoms(named, v, d);
            lemma_deleted(mid, next, e, a, aid, venc, v, d);
        }
    }
}

proof fn lemma_deleted(
    db: Db,
    next: Db,
    e: u64,
    a: Seq<char>,
    aid: u32,
    venc: Seq<u8>,
    v: Datum,
    d: DatomView,
)
    requires
        sound(db),
        next == (Db { ix: delete_datom(db.ix, e, aid, venc, v), ..db }),
        keyed(db.ix, v, venc),
        find_attr(db.attrs, a) matches Some((x, _)) && x == aid,
    ensures
        has_datom(next, d) <==> (has_datom(db, d) && d != (DatomView { e, a, v })),
{
    lemma_delete_agrees(db.ix, db.attrs, e, aid, venc, v);
    if let Some((bid, _)) = find_attr(db.attrs, d.a) {
        lemma_aids_apart(db.attrs, a, d.a);
        if datom_at(db.ix, d.e, bid, d.v) && d != (DatomView { e, a, v }) {
            let x = choose|x: Seq<u8>| #[trigger] keyed(db.ix, d.v, x) && has_key(
                db.ix.eav,
                eav_key(d.e, bid, x),
            );
            lemma_keyed_same_giants(db.ix, next.ix, d.v, x);
            if eav_key(d.e, bid, x) == eav_key(e, aid, venc) {
                lemma_eav_injective(d.e, bid, x, e, aid, venc);
                law_key_form_is_unique(db.ix, d.v, x, v, venc);
            }
            assert(keyed(next.ix, d.v, x));
            assert(has_key(next.ix.eav, eav_key(d.e, bid, x)));
        }
        if datom_at(next.ix, d.e, bid, d.v) {
            let x = choose|x: Seq<u8>| #[trigger] keyed(next.ix, d.v, x) && has_key(
                next.ix.eav,
                eav_key(d.e, bid, x),
            );
            lemma_keyed_same_giants(db.ix, next.ix, d.v, x);
            assert(keyed(db.ix, d.v, x));
            if d == (DatomView { e, a, v }) {
                law_key_form_is_unique(db.ix, d.v, x, v, venc);
            }
        }
    }
}

// ---------------------------------------------------------------------------
// Transactions
// ---------------------------------------------------------------------------

/// The value that an operation speaks of.
pub open spec fn op_value(op: OpView) -> Datum {
    match op {
        OpView::Add { v, .. } => v,
        OpView::Retract { v, .. } => v,
    }
}

/// Every operation speaks of a storable value whose digest no other stored giant has, and finds
/// ids left.
pub open spec fn admissible(db: Db, ops: Seq<OpView>) -> bool
    decreases ops.len(),
{
    ops.len() > 0 ==> {
        &&& admissible(db, ops.drop_last())
        &&& apply_all(db, ops.drop_last()) matches Ok(mid) ==> {
            &&& storable(op_value(ops.last()))
            &&& collision_free(mid.ix, op_value(ops.last()))
            &&& aid_room(mid.ix)
            &&& giant_room(mid.ix)
        }
    }
}

/// Whether the datom is held after the operations, told from what was held before: an add
/// brings the datom, and for a cardinality-one attribute drops every other value of the entity;
/// a retract drops the datom.
pub open spec fn held_after(db: Db, ops: Seq<OpView>, d: DatomView) -> bool
    decreases ops.len(),
{
    if ops.len() == 0 {
        has_datom(db, d)
    } else {
        let before = held_after(db, ops.drop_last(), d);
        match ops.last() {
            OpView::Add { e, a, v } => d == (DatomView { e, a, v }) || (before && !(d.e == e && d.a
                == a && !keeps_many(db.attrs, a))),
            OpView::Retract { e, a, v } => before && d != (DatomView { e, a, v }),
        }
    }
}

/// Applying operations keeps which attributes are cardinality-many.
proof fn lemma_apply_keeps_many(db: Db, op: OpView, a: Seq<char>)
    requires
        sound(db),
        aid_room(db.ix),
    ensures
        apply(db, op) matches Ok(next) ==> keeps_many(next.attrs, a) == keeps_many(db.attrs, a),
{
    reveal(apply);
    let name = match op {
        OpView::Add { a, .. } => a,
        OpView::Retract { a, .. } => a,
    };
    law_intern(db, name, None);
    let (named, _, _) = intern(db, name, None)->Ok_0;
    if a != name {
        assert(find_attr(named.attrs, a) == find_attr(db.attrs, a));
    }
}

/// Operations are applied in order: a sound state stays sound, the operations succeed exactly
/// when every value can be stored, and the store then holds what the operations say.
pub proof fn law_apply_all(db: Db, ops: Seq<OpView>)
    requires
        sound(db),
        admissible(db, ops),
    ensures
        apply_all(db, ops) is Ok <==> forall|i: int|
            0 <= i < ops.len() ==> encodable(op_value(#[trigger] ops[i])),
        apply_all(db, ops) matches Ok(next) ==> {
            &&& sound(next)
            &&& forall|a: Seq<char>| #[trigger]
                keeps_many(next.attrs, a) == keeps_many(db.attrs, a)
            &&& forall|d: DatomView| #[trigger] has_datom(next, d) <==> held_after(db, ops, d)
        },
    decreases ops.len(),
{
    if ops.len() > 0 {
        let init = ops.drop_last();
        let op = ops.last();
        law_apply_all(db, init);
        match apply_all(db, init) {
            Ok(mid) => {
                match op {
                    OpView::Add { e, a, v } => law_add(mid, e, a, v),
                    OpView::Retract { e, a, v } => law_retract(mid, e, a, v),
                }
                assert forall|a: Seq<char>|
                    apply(mid, op) matches Ok(next) implies #[trigger] keeps_many(
                    (apply(mid, op)->Ok_0).attrs,
                    a,
                ) == keeps_many(db.attrs, a) by {
                    lemma_apply_keeps_many(mid, op, a);
                }
                if apply(mid, op) is Ok {
                    let next = apply(mid, op)->Ok_0;
                    assert forall|d: DatomView| #[trigger] has_datom(next, d) <==> held_after(
                        db,
                        ops,
                        d,
                    ) by {
                        assert(has_datom(mid, d) <==> held_after(db, init, d));
                        match op {
                            OpView::Add { e, a, v } => {
                                assert(keeps_many(mid.attrs, a) == keeps_many(db.attrs, a));
                            },
                            _ => {},
                        }
                    }
                    assert forall|i: int| 0 <= i < ops.len() implies encodable(
                        op_value(#[trigger] ops[i]),
                    ) by {
                        if i < init.len() {
                            assert(init[i] == ops[i]);
                        }
                    }
                } else {
                    assert(!encodable(op_value(ops[ops.len() - 1])));
                }
            },
            Err(_) => {
                let i = choose|i: int| 0 <= i < init.len() && !encodable(
                    op_value(#[trigger] init[i]),
                );
                assert(!encodable(op_value(ops[i])));
            },
        }
    }
}

/// A transaction keeps a state sound, succeeds exactly when every value can be stored, and the
/// store then holds what the operations say; the largest entity id follows the adds.
pub proof fn law_transact(db: Db, ops: Seq<OpView>)
    requires
        sound(db),
        admissible(db, ops),
    ensures
        transacted(db, ops) is Ok <==> forall|i: int|
            0 <= i < ops.len() ==> encodable(op_value(#[trigger] ops[i])),
        transacted(db, ops) matches Ok(next) ==> {
            &&& sound(next)
            &&& forall|d: DatomView| #[trigger] has_datom(next, d) <==> held_after(db, ops, d)
            &&& crate::store_model::stored_max_eid(next.ix.meta) == crate::store_model::max_added(
                crate::store_model::stored_max_eid(db.ix.meta),
                ops,
            )
        },
{
    law_apply_all(db, ops);
    if let Ok(mid) = apply_all(db, ops) {
        let max = crate::store_model::max_added(
            crate::store_model::stored_max_eid(db.ix.meta),
            ops,
        );
        let next = transacted(db, ops)->Ok_0;
        let val = be_bytes(max as nat, 8);
        lemma_meta_keys_differ();
        assert(sorted_rows(mid.ix.rows(Part::Meta), false));
        lemma_put_sorted(mid.ix.meta, false, meta_max_eid(), val);
        assert forall|p: Part| sorted_rows(#[trigger] next.ix.rows(p), false) by {
            assert(sorted_rows(mid.ix.rows(p), false));
        }
        law_lookup_after_put(mid.ix.meta, meta_max_eid(), val, meta_next_aid());
        law_lookup_after_put(mid.ix.meta, meta_max_eid(), val, meta_next_giant());
        law_lookup_after_put(mid.ix.meta, meta_max_eid(), val, meta_max_eid());
        lemma_u64_bytes(max);
        assert(counter(next.ix.meta, meta_next_aid()) == counter(mid.ix.meta, meta_next_aid()));
        assert(counter(next.ix.meta, meta_next_giant()) == counter(
            mid.ix.meta,
            meta_next_giant(),
        ));
        lemma_giants_same(mid.ix, next.ix, counter(mid.ix.meta, meta_next_giant())->Ok_0);
        lemma_agree_same(mid.ix, next.ix, mid.attrs, mid.attrs);
        assert(schema_agrees(next.ix, next.attrs));
        assert forall|d: DatomView| #[trigger] has_datom(next, d) <==> held_after(db, ops, d) by {
            assert(has_datom(mid, d) <==> held_after(db, ops, d));
            lemma_same_datoms(mid, next, d);
            lemma_same_datoms(next, mid, d);
        }
    }
}

/// What the store holds does not depend on the counters.
proof fn lemma_same_datoms(db: Db, next: Db, d: DatomView)
    requires
        db.attrs == next.attrs,
        db.ix.eav == next.ix.eav,
        db.ix.giants == next.ix.giants,
        db.ix.giant_ids == next.ix.giant_ids,
    ensures
        has_datom(db, d) ==> has_datom(next, d),
{
    if has_datom(db, d) {
        let bid = (find_attr(db.attrs, d.a)->0).0;
        let x = choose|x: Seq<u8>| #[trigger] keyed(db.ix, d.v, x) && has_key(
            db.ix.eav,
            eav_key(d.e, bid, x),
        );
        lemma_keyed_same_giants(db.ix, next.ix, d.v, x);
        assert(keyed(next.ix, d.v, x));
    }
}

// ---------------------------------------------------------------------------
// Searches
// ---------------------------------------------------------------------------

/// Counting a pattern gives the number of datoms that searching it finds.
pub proof fn law_count_is_search_length(
    db: Db,
    e: Option<u64>,
    a: Option<Seq<char>>,
    v: Option<Datum>,
)
    requires
        searched(db, e, a, v) is Ok,
    ensures
        counted(db, e, a, v) == Ok::<nat, Fault>((searched(db, e, a, v)->Ok_0).len()),
{
    let venc = read_opt_key(db.ix, v);
    if a is Some {
        if let Some((aid, _)) = find_attr(db.attrs, a->0) {
            if let Some(e) = e {
                lemma_entry_count(
                    db,
                    Index::Eav,
                    matching(db.ix.eav, eav_key(e, aid, venc->Ok_0)),
                );
            } else {
                lemma_entry_count(
                    db,
                    Index::Ave,
                    matching(db.ix.ave, be_bytes(aid as nat, 4) + venc->Ok_0),
                );
            }
        }
    } else {
        match (e, v) {
            (Some(e), None) => lemma_entry_count(
                db,
                Index::Eav,
                matching(db.ix.eav, be_bytes(e as nat, 8)),
            ),
            (None, Some(Datum::Ref(t))) => lemma_entry_count(
                db,
                Index::Vae,
                matching(db.ix.vae, be_bytes(t as nat, 8)),
            ),
            (None, None) => {
                lemma_matching_all(db.ix.eav);
                lemma_entry_count(db, Index::Eav, db.ix.eav);
            },
            _ => {},
        }
    }
}

/// Every key starts with the empty prefix.
proof fn lemma_matching_all(rows: Seq<Row>)
    ensures
        matching(rows, Seq::empty()) == rows,
    decreases rows.len(),
{
    if rows.len() > 0 {
        lemma_matching_all(rows.drop_last());
        assert(rows.last().0.take(0) =~= Seq::<u8>::empty());
        assert(rows.drop_last().push(rows.last()) =~= rows);
    } else {
        assert(rows =~= Seq::empty());
    }
}

/// Rows that all stand for datoms give these datoms.
pub proof fn lemma_all_entries(db: Db, index: Index, rows: Seq<Row>)
    requires
        forall|i: int| 0 <= i < rows.len() ==> entry_datom(db, index, (#[trigger] rows[i]).0) is Ok,
    ensures
        entry_datoms(db, index, rows) matches Ok(ds) && ds.len() == rows.len() && forall|i: int|
            0 <= i < rows.len() ==> #[trigger] ds[i] == entry_datom(db, index, rows[i].0)->Ok_0,
    decreases rows.len(),
{
    if rows.len() > 0 {
        let init = rows.drop_last();
        assert forall|i: int| 0 <= i < init.len() implies entry_datom(
            db,
            index,
            (#[trigger] init[i]).0,
        ) is Ok by {
            assert(init[i] == rows[i]);
        }
        lemma_all_entries(db, index, init);
        assert(entry_datom(db, index, rows[rows.len() - 1].0) is Ok);
        let before = entry_datoms(db, index, init)->Ok_0;
        let ds = entry_datoms(db, index, rows)->Ok_0;
        assert forall|i: int| 0 <= i < rows.len() implies #[trigger] ds[i] == entry_datom(
            db,
            index,
            rows[i].0,
        )->Ok_0 by {
            if i < init.len() {
                assert(ds[i] == before[i]);
                assert(init[i] == rows[i]);
            }
        }
    }
}

/// The name of a known attribute id.
proof fn lemma_known_name(attrs: Seq<AttrRec>, aid: u32)
    requires
        unique_names(attrs),
        unique_aids(attrs),
        aid_known(attrs, aid),
    ensures
        aid_name(attrs, aid) matches Some(name) && (find_attr(attrs, name) matches Some((x, _))
            && x == aid),
{
    let i = choose|i: int| 0 <= i < attrs.len() && (#[trigger] attrs[i]).aid == aid;
    law_attr_lookup(attrs, i);
}

/// Whether a key of an index is the datom's.
#[verifier::opaque]
pub open spec fn key_of_datom(db: Db, index: Index, k: Seq<u8>, d: DatomView) -> bool {
    find_attr(db.attrs, d.a) matches Some((aid, _)) && match index {
        Index::Eav => exists|x: Seq<u8>| #[trigger]
            keyed(db.ix, d.v, x) && k == eav_key(d.e, aid, x),
        Index::Ave => exists|x: Seq<u8>| #[trigger]
            keyed(db.ix, d.v, x) && k == ave_key(aid, x, d.e),
        Index::Vae => d.v matches Datum::Ref(t) && k == vae_key(t, aid, d.e),
    }
}

/// Every key of an index stands for a datom that the store holds.
pub proof fn lemma_entry_sound(db: Db, index: Index, k: Seq<u8>)
    requires
        sound(db),
        has_key(db.ix.index(index), k),
    ensures
        entry_datom(db, index, k) matches Ok(d) && has_datom(db, d) && key_of_datom(db, index, k, d),
{
    reveal(key_of_datom);
    match index {
        Index::Eav => {
            let (e, aid, v, x) = lemma_eav_form(db.ix, db.attrs, k);
            lemma_eav_parts(e, aid, x);
            lemma_known_name(db.attrs, aid);
            law_key_form_round_trip(db.ix, v, x, Seq::empty());
            assert(x + Seq::<u8>::empty() =~= x);
            assert(keyed(db.ix, v, x));
        },
        Index::Ave => {
            reveal(ave_sound);
            let (e, aid, v, x) = choose|e: u64, aid: u32, v: Datum, x: Seq<u8>|
                ave_form(db.ix, k, e, aid, v, x);
            let (f, bid, w, y) = lemma_eav_form(db.ix, db.attrs, eav_key(e, aid, x));
            lemma_eav_injective(e, aid, x, f, bid, y);
            lemma_ave_parts(aid, x, e);
            lemma_known_name(db.attrs, aid);
            law_key_form_round_trip(db.ix, v, x, be_bytes(e as nat, 8));
            assert(keyed(db.ix, v, x));
        },
        Index::Vae => {
            reveal(vae_sound);
            let (t, aid, e) = choose|t: u64, aid: u32, e: u64| vae_form(db.ix, k, t, aid, e);
            let x = encoding(Datum::Ref(t));
            let (f, bid, w, y) = lemma_eav_form(db.ix, db.attrs, eav_key(e, aid, x));
            lemma_eav_injective(e, aid, x, f, bid, y);
            lemma_vae_parts(t, aid, e);
            lemma_known_name(db.attrs, aid);
            lemma_ref_inline(db.ix, t);
        },
    }
}

/// Every datom that the store holds has its key in the index: all datoms in `eav` and `ave`, the
/// refs in `vae`.
pub proof fn lemma_entry_complete(db: Db, index: Index, d: DatomView) -> (k: Seq<u8>)
    requires
        sound(db),
        has_datom(db, d),
        index == Index::Vae ==> d.v is Ref,
    ensures
        has_key(db.ix.index(index), k),
        key_of_datom(db, index, k, d),
        entry_datom(db, index, k) == Ok::<DatomView, Fault>(d),
{
    reveal(key_of_datom);
    let aid = (find_attr(db.attrs, d.a)->0).0;
    let x = choose|x: Seq<u8>| #[trigger] keyed(db.ix, d.v, x) && has_key(
        db.ix.eav,
        eav_key(d.e, aid, x),
    );
    let ek = eav_key(d.e, aid, x);
    let k = match index {
        Index::Eav => ek,
        Index::Ave => ave_key(aid, x, d.e),
        Index::Vae => vae_key(d.v->Ref_0, aid, d.e),
    };
    match index {
        Index::Eav => {},
        Index::Ave => {
            reveal(ave_complete);
        },
        Index::Vae => {
            reveal(vae_complete);
            let t = d.v->Ref_0;
            lemma_ref_inline(db.ix, t);
            law_key_form_is_unique(db.ix, d.v, x, d.v, encoding(d.v));
            assert(has_key(db.ix.eav, eav_key(d.e, aid, encoding(Datum::Ref(t)))));
        },
    }
    lemma_entry_sound(db, index, k);
    let got = entry_datom(db, index, k)->Ok_0;
    lemma_key_names_datom(db, index, k, got, d);
    k
}

/// A key of an index is of one datom.
pub proof fn lemma_key_names_datom(db: Db, index: Index, k: Seq<u8>, c: DatomView, d: DatomView)
    requires
        sound(db),
        key_of_datom(db, index, k, c),
        key_of_datom(db, index, k, d),
    ensures
        c == d,
{
    reveal(key_of_datom);
    lemma_aids_apart(db.attrs, c.a, d.a);
    let ca = (find_attr(db.attrs, c.a)->0).0;
    let da = (find_attr(db.attrs, d.a)->0).0;
    match index {
        Index::Eav => {
            let x = choose|x: Seq<u8>| #[trigger] keyed(db.ix, c.v, x) && k == eav_key(c.e, ca, x);
            let y = choose|y: Seq<u8>| #[trigger] keyed(db.ix, d.v, y) && k == eav_key(d.e, da, y);
            lemma_eav_injective(c.e, ca, x, d.e, da, y);
            law_key_form_is_unique(db.ix, c.v, x, d.v, y);
        },
        Index::Ave => {
            let x = choose|x: Seq<u8>| #[trigger] keyed(db.ix, c.v, x) && k == ave_key(ca, x, c.e);
            let y = choose|y: Seq<u8>| #[trigger] keyed(db.ix, d.v, y) && k == ave_key(da, y, d.e);
            lemma_ave_injective(db.ix, ca, c.v, x, c.e, da, d.v, y, d.e);
        },
        Index::Vae => {
            lemma_vae_injective(c.v->Ref_0, ca, c.e, d.v->Ref_0, da, d.e);
        },
    }
    assert(c == d);
}

/// The datoms of a scan, each with the row that it came from.
proof fn lemma_scan_entries(db: Db, index: Index, prefix: Seq<u8>)
    requires
        sound(db),
    ensures
        scan(db, index, prefix) matches Ok(ds) && ds.len() == matching(
            db.ix.index(index),
            prefix,
        ).len() && forall|i: int| 0 <= i < ds.len() ==> scan_entry(db, index, prefix, i, #[trigger] ds[i]),
{
    let rows = db.ix.index(index);
    lemma_index_sorted(db.ix, index);
    lemma_matching(rows, false, prefix);
    let found = matching(rows, prefix);
    let from = rank(rows, prefix) as int;
    assert forall|i: int| 0 <= i < found.len() implies entry_datom(
        db,
        index,
        (#[trigger] found[i]).0,
    ) is Ok && scan_entry(db, index, prefix, i, entry_datom(db, index, found[i].0)->Ok_0) by {
        assert(found[i] == rows[from + i]);
        assert(has_key(rows, rows[from + i].0));
        lemma_entry_sound(db, index, found[i].0);
        assert(key_of_datom(db, index, found[i].0, entry_datom(db, index, found[i].0)->Ok_0));
        if index == Index::Vae {
            reveal(key_of_datom);
        }
    }
    lemma_all_entries(db, index, found);
}

/// The datom is held and is that of the scan's row `i`.
spec fn scan_entry(db: Db, index: Index, prefix: Seq<u8>, i: int, d: DatomView) -> bool {
    &&& has_datom(db, d)
    &&& index == Index::Vae ==> d.v is Ref
    &&& key_of_datom(db, index, matching(db.ix.index(index), prefix)[i].0, d)
}

pub proof fn lemma_index_sorted(ix: Indexes, index: Index)
    requires
        ix_sorted(ix),
    ensures
        sorted_rows(ix.index(index), false),
{
    assert(sorted_rows(ix.rows(Part::Eav), false));
    assert(sorted_rows(ix.rows(Part::Ave), false));
    assert(sorted_rows(ix.rows(Part::Vae), false));
}

/// No row occurs twice in a scan.
proof fn lemma_scan_apart(db: Db, index: Index, prefix: Seq<u8>, i: int, j: int)
    requires
        ix_sorted(db.ix),
        0 <= i < j < matching(db.ix.index(index), prefix).len(),
    ensures
        matching(db.ix.index(index), prefix)[i].0 != matching(db.ix.index(index), prefix)[j].0,
{
    let rows = db.ix.index(index);
    lemma_index_sorted(db.ix, index);
    lemma_matching(rows, false, prefix);
    let from = rank(rows, prefix) as int;
    let found = matching(rows, prefix);
    assert(found[i] == rows[from + i] && found[j] == rows[from + j]);
    assert(lex_lt(rows[from + i].0, rows[from + j].0));
    lemma_lex_irreflexive(found[i].0);
}

/// A held datom whose key has the prefix is in the scan.
proof fn lemma_scan_finds(db: Db, index: Index, prefix: Seq<u8>, d: DatomView)
    requires
        sound(db),
        has_datom(db, d),
        index == Index::Vae ==> d.v is Ref,
        exists|k: Seq<u8>| #[trigger] key_of_datom(db, index, k, d) && starts_with(k, prefix),
    ensures
        scan(db, index, prefix) matches Ok(ds) && ds.contains(d),
{
    let rows = db.ix.index(index);
    lemma_index_sorted(db.ix, index);
    lemma_matching(rows, false, prefix);
    lemma_scan_entries(db, index, prefix);
    let found = matching(rows, prefix);
    let from = rank(rows, prefix) as int;
    let ds = scan(db, index, prefix)->Ok_0;
    let k = choose|k: Seq<u8>| #[trigger] key_of_datom(db, index, k, d) && starts_with(k, prefix);
    let own = lemma_entry_complete(db, index, d);
    lemma_one_key(db, index, k, own, d);
    let j = choose|j: int| 0 <= j < rows.len() && (#[trigger] rows[j]).0 == k;
    let i = j - from;
    assert(found[i] == rows[j]);
    assert(scan_entry(db, index, prefix, i, ds[i]));
    lemma_key_names_datom(db, index, k, ds[i], d);
}

/// A scan of a sound state succeeds; it finds exactly the held datoms whose key has the prefix,
/// each once.
proof fn lemma_scan(db: Db, index: Index, prefix: Seq<u8>)
    requires
        sound(db),
    ensures
        scan(db, index, prefix) matches Ok(ds) && {
            &&& ds.no_duplicates()
            &&& forall|d: DatomView| #[trigger]
                ds.contains(d) <==> (has_datom(db, d) && (index == Index::Vae ==> d.v is Ref)
                    && exists|k: Seq<u8>| #[trigger]
                    key_of_datom(db, index, k, d) && starts_with(k, prefix))
        },
{
    lemma_scan_entries(db, index, prefix);
    let ds = scan(db, index, prefix)->Ok_0;
    let found = matching(db.ix.index(index), prefix);
    assert forall|i: int, j: int| 0 <= i < j < ds.len() implies ds[i] != ds[j] by {
        assert(scan_entry(db, index, prefix, i, ds[i]));
        assert(scan_entry(db, index, prefix, j, ds[j]));
        lemma_scan_apart(db, index, prefix, i, j);
        if ds[i] == ds[j] {
            lemma_one_key(db, index, found[i].0, found[j].0, ds[i]);
        }
    }
    assert forall|d: DatomView| #[trigger] ds.contains(d) <==> (has_datom(db, d) && (index
        == Index::Vae ==> d.v is Ref) && exists|k: Seq<u8>| #[trigger]
        key_of_datom(db, index, k, d) && starts_with(k, prefix)) by {
        if ds.contains(d) {
            let i = choose|i: int| 0 <= i < ds.len() && ds[i] == d;
            assert(scan_entry(db, index, prefix, i, ds[i]));
            lemma_index_sorted(db.ix, index);
            lemma_matching(db.ix.index(index), false, prefix);
            let at = rank(db.ix.index(index), prefix) as int + i;
            assert(found[i] == db.ix.index(index)[at]);
            assert(key_of_datom(db, index, found[i].0, d) && starts_with(found[i].0, prefix));
        }
        if has_datom(db, d) && (index == Index::Vae ==> d.v is Ref) && exists|k: Seq<u8>| #[trigger]
            key_of_datom(db, index, k, d) && starts_with(k, prefix) {
            lemma_scan_finds(db, index, prefix, d);
        }
    }
}

/// A datom has one key in an index.
pub proof fn lemma_one_key(db: Db, index: Index, k: Seq<u8>, l: Seq<u8>, d: DatomView)
    requires
        sound(db),
        key_of_datom(db, index, k, d),
        key_of_datom(db, index, l, d),
    ensures
        k == l,
{
    reveal(key_of_datom);
    let aid = (find_attr(db.attrs, d.a)->0).0;
    match index {
        Index::Eav => {
            let x = choose|x: Seq<u8>| #[trigger] keyed(db.ix, d.v, x) && k == eav_key(d.e, aid, x);
            let y = choose|y: Seq<u8>| #[trigger] keyed(db.ix, d.v, y) && l == eav_key(d.e, aid, y);
            law_key_form_is_unique(db.ix, d.v, x, d.v, y);
        },
        Index::Ave => {
            let x = choose|x: Seq<u8>| #[trigger] keyed(db.ix, d.v, x) && k == ave_key(aid, x, d.e);
            let y = choose|y: Seq<u8>| #[trigger] keyed(db.ix, d.v, y) && l == ave_key(aid, y, d.e);
            law_key_form_is_unique(db.ix, d.v, x, d.v, y);
        },
        Index::Vae => {},
    }
}

/// The lookup form of a value starts the key form of that value, and of no other.
proof fn lemma_value_prefix(ix: Indexes, top: nat, w: Datum, x: Seq<u8>, more: Seq<u8>, v: Datum)
    requires
        giants_agree(ix, top),
        keyed(ix, w, x),
        storable(v),
        collision_free(ix, v),
        encodable(v),
    ensures
        read_key(ix, v) matches Ok(y) && (starts_with(x + more, y) <==> w == v),
{
    if encoding(v).len() > GIANT_THRESHOLD {
        let (tag, raw) = giant_raw(v)->0;
        if let Some(idb) = lookup(ix.giant_ids, sha256_digest(raw)) {
            let id = choose|id: u64| giant_entry(ix, sha256_digest(raw), idb, id) && 1 <= id <= top;
            lemma_u64_bytes(id);
        }
    }
    lemma_read_key(ix, top, v);
    let y = read_key(ix, v)->Ok_0;
    let s = (x + more).skip(y.len() as int);
    if starts_with(x + more, y) {
        assert(x + more =~= y + s);
    }
    law_key_form_round_trip(ix, w, x, more);
    if keyed(ix, v, y) {
        if starts_with(x + more, y) {
            law_key_form_round_trip(ix, v, y, s);
        }
        if w == v {
            law_key_form_is_unique(ix, w, x, v, y);
            assert((x + more).take(y.len() as int) =~= y);
        }
    } else {
        let (tag, raw) = giant_raw(v)->0;
        lemma_oversized(v);
        if starts_with(x + more, y) {
            lemma_giant_key_parses(tag, raw, 0, s);
            if encoding(w).len() <= GIANT_THRESHOLD {
                law_decode_undoes_encode(w, more);
            } else {
                lemma_oversized(w);
                let (wtag, wraw) = giant_raw(w)->0;
                let id = choose|id: u64| #[trigger] giant_stored(ix, wraw, id) && x == giant_key(
                    wtag,
                    wraw,
                    id as nat,
                );
                lemma_giant_key_parses(wtag, wraw, id, more);
                let idb = lookup(ix.giant_ids, sha256_digest(wraw))->0;
                let known = choose|k: u64| giant_entry(ix, sha256_digest(wraw), idb, k) && 1 <= k
                    <= top;
                lemma_u64_bytes(id);
                lemma_u64_bytes(known);
                assert(false);
            }
        }
        if w == v {
            let id = choose|id: u64| #[trigger] giant_stored(ix, raw, id) && x == giant_key(
                tag,
                raw,
                id as nat,
            );
            assert(false);
        }
    }
}

/// What a pattern asks of a datom. With a bound attribute the value is compared by its key form,
/// else as values are.
pub open spec fn fits_pattern(
    e: Option<u64>,
    a: Option<Seq<char>>,
    v: Option<Datum>,
    d: DatomView,
) -> bool {
    &&& e matches Some(x) ==> d.e == x
    &&& a matches Some(n) ==> d.a == n
    &&& v matches Some(w) ==> if a is Some {
        d.v == w
    } else {
        values_equal(d.v, w)
    }
}

/// Prefixes of concatenations.
proof fn lemma_starts_parts(p: Seq<u8>, x: Seq<u8>, q: Seq<u8>, y: Seq<u8>)
    requires
        p.len() == q.len(),
    ensures
        starts_with(p + x, q + y) <==> (p == q && starts_with(x, y)),
{
    let n = p.len() as int;
    let m = y.len() as int;
    if starts_with(p + x, q + y) {
        assert((p + x).take(n + m).take(n) =~= p);
        assert((q + y).take(n) =~= q);
        assert((p + x).take(n + m).skip(n) =~= x.take(m));
        assert((q + y).skip(n) =~= y);
    }
    if p == q && starts_with(x, y) {
        assert((p + x).take(n + m) =~= p + x.take(m));
    }
}

/// A held datom is found by a prefix exactly when its own key has it.
proof fn lemma_found_by_key(db: Db, index: Index, prefix: Seq<u8>, d: DatomView, k: Seq<u8>)
    requires
        sound(db),
        key_of_datom(db, index, k, d),
    ensures
        (exists|l: Seq<u8>| #[trigger] key_of_datom(db, index, l, d) && starts_with(l, prefix))
            <==> starts_with(k, prefix),
{
    if exists|l: Seq<u8>| #[trigger] key_of_datom(db, index, l, d) && starts_with(l, prefix) {
        let l = choose|l: Seq<u8>| #[trigger]
            key_of_datom(db, index, l, d) && starts_with(l, prefix);
        lemma_one_key(db, index, k, l, d);
    }
}

/// Filtering keeps exactly the datoms with the value.
proof fn lemma_having_value(ds: Seq<DatomView>, v: Datum)
    ensures
        forall|d: DatomView| #[trigger]
            having_value(ds, v).contains(d) <==> (ds.contains(d) && values_equal(d.v, v)),
        ds.no_duplicates() ==> having_value(ds, v).no_duplicates(),
    decreases ds.len(),
{
    if ds.len() > 0 {
        let init = ds.drop_last();
        let last = ds.last();
        lemma_having_value(init, v);
        let less = having_value(init, v);
        let all = having_value(ds, v);
        assert forall|d: DatomView| #[trigger] ds.contains(d) <==> (init.contains(d) || d == last) by {
            if ds.contains(d) {
                let i = choose|i: int| 0 <= i < ds.len() && ds[i] == d;
                if i < init.len() {
                    assert(init[i] == d);
                }
            }
            if init.contains(d) {
                let i = choose|i: int| 0 <= i < init.len() && init[i] == d;
                assert(ds[i] == d);
            }
            assert(ds[ds.len() - 1] == last);
        }
        assert forall|d: DatomView| #[trigger] all.contains(d) <==> (ds.contains(d)
            && values_equal(d.v, v)) by {
            if values_equal(last.v, v) {
                assert(all == less.push(last));
                assert(all[all.len() - 1] == last);
                if less.contains(d) {
                    let i = choose|i: int| 0 <= i < less.len() && less[i] == d;
                    assert(all[i] == d);
                }
                if all.contains(d) {
                    let i = choose|i: int| 0 <= i < all.len() && all[i] == d;
                    if i < less.len() {
                        assert(less[i] == d);
                    }
                }
            }
            assert(less.contains(d) <==> (init.contains(d) && values_equal(d.v, v)));
        }
        if ds.no_duplicates() {
            assert(init.no_duplicates()) by {
                assert forall|i: int, j: int|
                    0 <= i < init.len() && 0 <= j < init.len() && i != j implies init[i]
                    != init[j] by {
                    assert(init[i] == ds[i] && init[j] == ds[j]);
                }
            }
            if values_equal(last.v, v) {
                assert(!init.contains(last)) by {
                    if init.contains(last) {
                        let i = choose|i: int| 0 <= i < init.len() && init[i] == last;
                        assert(ds[i] == ds[ds.len() - 1]);
                    }
                }
                assert(!less.contains(last));
                assert forall|i: int, j: int|
                    0 <= i < all.len() && 0 <= j < all.len() && i != j implies all[i] != all[j] by {
                    if i < less.len() && j < less.len() {
                        assert(all[i] == less[i] && all[j] == less[j]);
                    } else if i < less.len() {
                        assert(all[i] == less[i]);
                        assert(less.contains(less[i]));
                    } else {
                        assert(all[j] == less[j]);
                        assert(less.contains(less[j]));
                    }
                }
            }
        }
    }
}

/// Searching a sound store finds exactly the datoms that it holds and the pattern fits, each
/// once.
pub proof fn law_search(db: Db, e: Option<u64>, a: Option<Seq<char>>, v: Option<Datum>)
    requires
        sound(db),
        v matches Some(w) ==> storable(w) && encodable(w) && collision_free(db.ix, w),
    ensures
        searched(db, e, a, v) matches Ok(ds) && {
            &&& ds.no_duplicates()
            &&& forall|d: DatomView| #[trigger]
                ds.contains(d) <==> (has_datom(db, d) && fits_pattern(e, a, v, d))
        },
{
    let top = counter(db.ix.meta, meta_next_giant())->Ok_0;
    if let Some(w) = v {
        lemma_ref_inline(db.ix, 0);
        lemma_value_prefix(
            db.ix,
            top,
            Datum::Ref(0),
            encoding(Datum::Ref(0)),
            Seq::empty(),
            w,
        );
    }
    let venc = read_opt_key(db.ix, v)->Ok_0;
    match a {
        Some(name) => {
            match find_attr(db.attrs, name) {
                None => {
                    let ds = searched(db, e, a, v)->Ok_0;
                    assert forall|d: DatomView| #[trigger] ds.contains(d) <==> (has_datom(db, d)
                        && fits_pattern(e, a, v, d)) by {}
                },
                Some((aid, _)) => {
                    match e {
                        Some(x) => {
                            let prefix = eav_key(x, aid, venc);
                            lemma_scan(db, Index::Eav, prefix);
                            let ds = scan(db, Index::Eav, prefix)->Ok_0;
                            assert forall|d: DatomView| #[trigger] ds.contains(d) <==> (has_datom(
                                db,
                                d,
                            ) && fits_pattern(e, a, v, d)) by {
                                if has_datom(db, d) {
                                    lemma_eav_pattern(db, x, name, aid, v, d);
                                }
                            }
                        },
                        None => {
                            let prefix = be_bytes(aid as nat, 4) + venc;
                            lemma_scan(db, Index::Ave, prefix);
                            let ds = scan(db, Index::Ave, prefix)->Ok_0;
                            assert forall|d: DatomView| #[trigger] ds.contains(d) <==> (has_datom(
                                db,
                                d,
                            ) && fits_pattern(e, a, v, d)) by {
                                if has_datom(db, d) {
                                    lemma_ave_pattern(db, name, aid, v, d);
                                }
                            }
                        },
                    }
                },
            }
        },
        None => {
            match (e, v) {
                (Some(x), _) => {
                    let prefix = be_bytes(x as nat, 8);
                    lemma_scan(db, Index::Eav, prefix);
                    let ds = scan(db, Index::Eav, prefix)->Ok_0;
                    if let Some(w) = v {
                        lemma_having_value(ds, w);
                    }
                    let out = searched(db, e, a, v)->Ok_0;
                    assert forall|d: DatomView| #[trigger] out.contains(d) <==> (has_datom(db, d)
                        && fits_pattern(e, a, v, d)) by {
                        if has_datom(db, d) {
                            lemma_entity_pattern(db, x, d);
                        }
                        assert(ds.contains(d) <==> (has_datom(db, d) && d.e == x));
                    }
                },
                (None, Some(Datum::Ref(t))) => {
                    let prefix = be_bytes(t as nat, 8);
                    lemma_scan(db, Index::Vae, prefix);
                    let ds = scan(db, Index::Vae, prefix)->Ok_0;
                    assert forall|d: DatomView| #[trigger] ds.contains(d) <==> (has_datom(db, d)
                        && fits_pattern(e, a, v, d)) by {
                        if has_datom(db, d) && d.v is Ref {
                            lemma_vae_pattern(db, t, d);
                        }
                    }
                },
                (None, _) => {
                    lemma_scan(db, Index::Eav, Seq::empty());
                    let ds = scan(db, Index::Eav, Seq::empty())->Ok_0;
                    if let Some(w) = v {
                        lemma_having_value(ds, w);
                    }
                    let out = searched(db, e, a, v)->Ok_0;
                    assert forall|d: DatomView| #[trigger] out.contains(d) <==> (has_datom(db, d)
                        && fits_pattern(e, a, v, d)) by {
                        if has_datom(db, d) {
                            let k = lemma_entry_complete(db, Index::Eav, d);
                            assert(k.take(0) =~= Seq::<u8>::empty());
                            lemma_found_by_key(db, Index::Eav, Seq::empty(), d, k);
                        }
                        assert(ds.contains(d) <==> has_datom(db, d));
                    }
                },
            }
        },
    }
}

proof fn lemma_eav_pattern(
    db: Db,
    e: u64,
    name: Seq<char>,
    aid: u32,
    v: Option<Datum>,
    d: DatomView,
)
    requires
        sound(db),
        find_attr(db.attrs, name) matches Some((x, _)) && x == aid,
        v matches Some(w) ==> storable(w) && encodable(w) && collision_free(db.ix, w),
        has_datom(db, d),
    ensures
        (exists|k: Seq<u8>| #[trigger]
            key_of_datom(db, Index::Eav, k, d) && starts_with(
                k,
                eav_key(e, aid, read_opt_key(db.ix, v)->Ok_0),
            )) <==> fits_pattern(Some(e), Some(name), v, d),
{
    let top = counter(db.ix.meta, meta_next_giant())->Ok_0;
    let venc = read_opt_key(db.ix, v)->Ok_0;
    let k = lemma_entry_complete(db, Index::Eav, d);
    lemma_found_by_key(db, Index::Eav, eav_key(e, aid, venc), d, k);
    lemma_aids_apart(db.attrs, name, d.a);
    let bid = (find_attr(db.attrs, d.a)->0).0;
    assert(exists|x: Seq<u8>| #[trigger] keyed(db.ix, d.v, x) && k == eav_key(d.e, bid, x)) by {
        reveal(key_of_datom);
    }
    let x = choose|x: Seq<u8>| #[trigger] keyed(db.ix, d.v, x) && k == eav_key(d.e, bid, x);
    lemma_u64_bytes(e);
    lemma_u64_bytes(d.e);
    lemma_u32_bytes(aid);
    lemma_u32_bytes(bid);
    lemma_starts_parts(
        be_bytes(d.e as nat, 8) + be_bytes(bid as nat, 4),
        x,
        be_bytes(e as nat, 8) + be_bytes(aid as nat, 4),
        venc,
    );
    lemma_entity_prefix(e, aid, d.e, bid, Seq::empty());
    assert(eav_key(d.e, bid, Seq::empty()) =~= entity_prefix(d.e, bid));
    if entity_prefix(d.e, bid) == entity_prefix(e, aid) {
        assert(entity_prefix(d.e, bid).take(12) =~= entity_prefix(e, aid));
    }
    if let Some(w) = v {
        lemma_value_prefix(db.ix, top, d.v, x, Seq::empty(), w);
        assert(x + Seq::<u8>::empty() =~= x);
    } else {
        assert(x.take(0) =~= venc);
    }
}

proof fn lemma_ave_pattern(db: Db, name: Seq<char>, aid: u32, v: Option<Datum>, d: DatomView)
    requires
        sound(db),
        find_attr(db.attrs, name) matches Some((x, _)) && x == aid,
        v matches Some(w) ==> storable(w) && encodable(w) && collision_free(db.ix, w),
        has_datom(db, d),
    ensures
        (exists|k: Seq<u8>| #[trigger]
            key_of_datom(db, Index::Ave, k, d) && starts_with(
                k,
                be_bytes(aid as nat, 4) + read_opt_key(db.ix, v)->Ok_0,
            )) <==> fits_pattern(None, Some(name), v, d),
{
    let top = counter(db.ix.meta, meta_next_giant())->Ok_0;
    let venc = read_opt_key(db.ix, v)->Ok_0;
    let prefix = be_bytes(aid as nat, 4) + venc;
    let k = lemma_entry_complete(db, Index::Ave, d);
    lemma_found_by_key(db, Index::Ave, prefix, d, k);
    lemma_aids_apart(db.attrs, name, d.a);
    let bid = (find_attr(db.attrs, d.a)->0).0;
    assert(exists|x: Seq<u8>| #[trigger] keyed(db.ix, d.v, x) && k == ave_key(bid, x, d.e)) by {
        reveal(key_of_datom);
    }
    let x = choose|x: Seq<u8>| #[trigger] keyed(db.ix, d.v, x) && k == ave_key(bid, x, d.e);
    let rest = be_bytes(d.e as nat, 8);
    lemma_u32_bytes(aid);
    lemma_u32_bytes(bid);
    lemma_starts_parts(be_bytes(bid as nat, 4), x + rest, be_bytes(aid as nat, 4), venc);
    assert(k =~= be_bytes(bid as nat, 4) + (x + rest));
    if let Some(w) = v {
        lemma_value_prefix(db.ix, top, d.v, x, rest, w);
    } else {
        assert((x + rest).take(0) =~= venc);
    }
}

proof fn lemma_entity_pattern(db: Db, e: u64, d: DatomView)
    requires
        sound(db),
        has_datom(db, d),
    ensures
        (exists|k: Seq<u8>| #[trigger]
            key_of_datom(db, Index::Eav, k, d) && starts_with(k, be_bytes(e as nat, 8))) <==> d.e
            == e,
{
    let k = lemma_entry_complete(db, Index::Eav, d);
    lemma_found_by_key(db, Index::Eav, be_bytes(e as nat, 8), d, k);
    let bid = (find_attr(db.attrs, d.a)->0).0;
    assert(exists|x: Seq<u8>| #[trigger] keyed(db.ix, d.v, x) && k == eav_key(d.e, bid, x)) by {
        reveal(key_of_datom);
    }
    let x = choose|x: Seq<u8>| #[trigger] keyed(db.ix, d.v, x) && k == eav_key(d.e, bid, x);
    lemma_eav_parts(d.e, bid, x);
    lemma_u64_bytes(e);
    lemma_u64_bytes(d.e);
}

proof fn lemma_vae_pattern(db: Db, t: u64, d: DatomView)
    requires
        sound(db),
        has_datom(db, d),
        d.v is Ref,
    ensures
        (exists|k: Seq<u8>| #[trigger]
            key_of_datom(db, Index::Vae, k, d) && starts_with(k, be_bytes(t as nat, 8))) <==> d.v
            == Datum::Ref(t),
{
    let k = lemma_entry_complete(db, Index::Vae, d);
    lemma_found_by_key(db, Index::Vae, be_bytes(t as nat, 8), d, k);
    let bid = (find_attr(db.attrs, d.a)->0).0;
    let u = d.v->Ref_0;
    assert(k == vae_key(u, bid, d.e)) by {
        reveal(key_of_datom);
    }
    lemma_vae_parts(u, bid, d.e);
    lemma_u64_bytes(t);
    lemma_u64_bytes(u);
}

// ---------------------------------------------------------------------------
// Reopening
// ---------------------------------------------------------------------------

/// Reading an attribute's schema row gives the attribute back.
pub proof fn law_schema_row_round_trip(rec: AttrRec)
    ensures
        crate::store_model::schema_attr(schema_row(rec)) == Ok::<AttrRec, Fault>(rec),
{
    encode_utf8_valid_utf8(rec.name);
    encode_utf8_decode_utf8(rec.name);
    lemma_u32_bytes(rec.aid);
    let v = attr_record(rec.aid, rec.props);
    assert(v.take(4) =~= be_bytes(rec.aid as nat, 4));
}

/// The attribute of a schema row.
spec fn row_rec(row: Row) -> AttrRec {
    crate::store_model::schema_attr(row)->Ok_0
}

/// Schema rows of different names read as their attributes, in order.
proof fn lemma_read_schema(rows: Seq<Row>)
    requires
        sorted_rows(rows, false),
        forall|i: int| 0 <= i < rows.len() ==> (#[trigger] rows[i]) == schema_row(row_rec(rows[i]))
            && crate::store_model::schema_attr(rows[i]) is Ok,
    ensures
        crate::store_model::read_schema(rows) matches Ok(attrs) && attrs.len() == rows.len()
            && forall|i: int| 0 <= i < rows.len() ==> #[trigger] attrs[i] == row_rec(rows[i]),
    decreases rows.len(),
{
    if rows.len() > 0 {
        let init = rows.drop_last();
        let last = rows.last();
        assert forall|i: int| 0 <= i < init.len() implies (#[trigger] init[i]) == schema_row(
            row_rec(init[i]),
        ) && crate::store_model::schema_attr(init[i]) is Ok by {
            assert(init[i] == rows[i]);
        }
        assert(sorted_rows(init, false)) by {
            assert forall|i: int, j: int| #![trigger init[i], init[j]]
                0 <= i < j < init.len() implies crate::rows::row_lt(init[i], init[j]) && lex_lt(
                init[i].0,
                init[j].0,
            ) by {
                assert(init[i] == rows[i] && init[j] == rows[j]);
            }
        }
        lemma_read_schema(init);
        let before = crate::store_model::read_schema(init)->Ok_0;
        let rec = row_rec(last);
        assert(rows[rows.len() - 1] == last);
        assert forall|i: int| 0 <= i < before.len() implies (#[trigger] before[i]).name
            != rec.name by {
            assert(before[i] == row_rec(init[i]));
            assert(init[i] == rows[i]);
            assert(rows[i] == schema_row(row_rec(rows[i])));
            assert(last == schema_row(rec));
            assert(lex_lt(rows[i].0, rows[rows.len() - 1].0));
            lemma_lex_irreflexive(last.0);
        }
        lemma_without_absent(before, rec.name);
        let attrs = crate::store_model::read_schema(rows)->Ok_0;
        assert(attrs == before.push(rec));
        assert forall|i: int| 0 <= i < rows.len() implies #[trigger] attrs[i] == row_rec(
            rows[i],
        ) by {
            if i < init.len() {
                assert(attrs[i] == before[i]);
                assert(init[i] == rows[i]);
            }
        }
    }
}

/// A state as it is once its store is opened again: the same rows, with the attributes that the
/// schema rows declare.
pub open spec fn reopened(db: Db) -> Db {
    match crate::store_model::read_schema(db.ix.schema) {
        Ok(attrs) => Db { ix: db.ix, attrs },
        Err(_) => db,
    }
}

/// Reopening a sound store gives the same rows and the same attributes, so it holds the same
/// datoms and is sound again.
pub proof fn law_reopen(
    store: crate::store::Store,
    image: Seq<crate::lmdb::Table>,
    flags: crate::lmdb::EnvFlags,
)
    requires
        store.wf(),
        sound(store.db()),
        store.has_image(image),
        (flags.0 | crate::lmdb::MDB_NOTLS) & crate::lmdb::MDB_RDONLY == 0,
    ensures
        crate::store::opened_store(image, flags) matches Ok(db) && {
            &&& db == reopened(store.db())
            &&& db.ix == store.db().ix
            &&& forall|name: Seq<char>| #[trigger]
                find_attr(db.attrs, name) == find_attr(store.db().attrs, name)
            &&& forall|d: DatomView| #[trigger] has_datom(db, d) <==> has_datom(store.db(), d)
            &&& sound(db)
        },
{
    crate::store::law_reopen_rows(store, image, flags);
    law_reopened(store.db());
}

/// The schema rows of a sound state declare its attributes: the state that they are read back to
/// holds the same datoms and is sound.
pub proof fn law_reopened(old: Db)
    requires
        sound(old),
    ensures
        crate::store_model::read_schema(old.ix.schema) is Ok,
        reopened(old).ix == old.ix,
        forall|name: Seq<char>| #[trigger]
            find_attr(reopened(old).attrs, name) == find_attr(old.attrs, name),
        forall|d: DatomView| #[trigger] has_datom(reopened(old), d) <==> has_datom(old, d),
        sound(reopened(old)),
{
    let rows = old.ix.schema;
    assert(sorted_rows(old.ix.rows(Part::Schema), false));
    assert forall|i: int| 0 <= i < rows.len() implies (#[trigger] rows[i]) == schema_row(
        row_rec(rows[i]),
    ) && crate::store_model::schema_attr(rows[i]) is Ok && old.attrs.contains(row_rec(rows[i])) by {
        assert(has_row(rows, rows[i]));
        let j = choose|j: int| 0 <= j < old.attrs.len() && rows[i] == schema_row(
            #[trigger] old.attrs[j],
        );
        law_schema_row_round_trip(old.attrs[j]);
    }
    lemma_read_schema(rows);
    let attrs = crate::store_model::read_schema(rows)->Ok_0;
    let db = Db { ix: old.ix, attrs };
    assert forall|i: int| 0 <= i < attrs.len() implies old.attrs.contains(#[trigger] attrs[i])
        && rows[i] == schema_row(attrs[i]) by {
        assert(attrs[i] == row_rec(rows[i]));
    }
    assert forall|k: int| 0 <= k < old.attrs.len() implies attrs.contains(
        #[trigger] old.attrs[k],
    ) by {
        assert(has_row(rows, schema_row(old.attrs[k])));
        let i = choose|i: int| 0 <= i < rows.len() && #[trigger] rows[i] == schema_row(
            old.attrs[k],
        );
        law_schema_row_round_trip(old.attrs[k]);
        assert(attrs[i] == old.attrs[k]);
    }
    assert(unique_names(attrs)) by {
        assert forall|i: int, j: int| #![trigger attrs[i], attrs[j]]
            0 <= i < j < attrs.len() implies attrs[i].name != attrs[j].name by {
            assert(rows[i] == schema_row(attrs[i]) && rows[j] == schema_row(attrs[j]));
            assert(lex_lt(rows[i].0, rows[j].0));
            lemma_lex_irreflexive(rows[i].0);
        }
    }
    assert(unique_aids(attrs)) by {
        assert forall|i: int, j: int| #![trigger attrs[i], attrs[j]]
            0 <= i < j < attrs.len() implies attrs[i].aid != attrs[j].aid by {
            assert(attrs[i].name != attrs[j].name);
            let a = choose|a: int| 0 <= a < old.attrs.len() && old.attrs[a] == attrs[i];
            let b = choose|b: int| 0 <= b < old.attrs.len() && old.attrs[b] == attrs[j];
            if a < b {
                assert(old.attrs[a].aid != old.attrs[b].aid);
            } else {
                assert(old.attrs[b].aid != old.attrs[a].aid);
            }
        }
    }
    assert(schema_agrees(db.ix, attrs)) by {
        assert forall|i: int| 0 <= i < attrs.len() implies has_row(
            db.ix.schema,
            schema_row(#[trigger] attrs[i]),
        ) by {
            assert(rows[i] == schema_row(attrs[i]));
        }
        assert forall|row: Row| #[trigger] has_row(db.ix.schema, row) implies exists|i: int|
            0 <= i < attrs.len() && row == schema_row(#[trigger] attrs[i]) by {
            let i = choose|i: int| 0 <= i < rows.len() && #[trigger] rows[i] == row;
            assert(row == schema_row(attrs[i]));
        }
    }
    assert(aids_counted(db.ix, attrs)) by {
        let c = counter(db.ix.meta, meta_next_aid())->Ok_0;
        assert forall|i: int| 0 <= i < attrs.len() implies 1 <= (#[trigger] attrs[i]).aid <= c by {
            assert(old.attrs.contains(attrs[i]));
            let a = choose|a: int| 0 <= a < old.attrs.len() && old.attrs[a] == attrs[i];
            assert(1 <= old.attrs[a].aid <= c);
        }
    }
    assert forall|a: u32| #[trigger] aid_known(old.attrs, a) implies aid_known(attrs, a) by {
        let k = choose|k: int| 0 <= k < old.attrs.len() && (#[trigger] old.attrs[k]).aid == a;
        assert(attrs.contains(old.attrs[k]));
        let i = choose|i: int| 0 <= i < attrs.len() && attrs[i] == old.attrs[k];
        assert(attrs[i].aid == a);
    }
    lemma_agree_same(old.ix, db.ix, old.attrs, attrs);
    assert forall|name: Seq<char>| #[trigger] find_attr(attrs, name) == find_attr(
        old.attrs,
        name,
    ) by {
        lemma_find_attr(attrs, name);
        lemma_find_attr(old.attrs, name);
        if let Some((aid, props)) = find_attr(old.attrs, name) {
            let k = choose|k: int| 0 <= k < old.attrs.len() && (#[trigger] old.attrs[k]) == (
            AttrRec { name, aid, props });
            assert(attrs.contains(old.attrs[k]));
            let i = choose|i: int| 0 <= i < attrs.len() && attrs[i] == old.attrs[k];
            law_attr_lookup(attrs, i);
        } else if let Some((aid, props)) = find_attr(attrs, name) {
            let i = choose|i: int| 0 <= i < attrs.len() && (#[trigger] attrs[i]) == (AttrRec {
                name,
                aid,
                props,
            });
            assert(old.attrs.contains(attrs[i]));
            let a = choose|a: int| 0 <= a < old.attrs.len() && old.attrs[a] == attrs[i];
            assert(old.attrs[a].name == name);
        }
    }
    assert forall|d: DatomView| #[trigger] has_datom(db, d) <==> has_datom(old, d) by {
        assert(find_attr(attrs, d.a) == find_attr(old.attrs, d.a));
    }
}

// ---------------------------------------------------------------------------
// Order
// ---------------------------------------------------------------------------

/// The bytes of integers are ordered as the integers are, whatever follows.
pub proof fn lemma_u64_order(a: u64, b: u64, x: Seq<u8>, y: Seq<u8>)
    ensures
        a < b ==> lex_lt(be_bytes(a as nat, 8) + x, be_bytes(b as nat, 8) + y),
{
    if a < b {
        lemma_pow256_8();
        crate::bytes::lemma_be_order(a as nat, b as nat, 8);
        crate::bytes::lemma_split_orders(be_bytes(a as nat, 8), be_bytes(b as nat, 8), x, y);
    }
}

/// An attribute's datoms are found in value order: of two with inline values the one with the
/// smaller value comes first, and among equal values the one with the smaller entity.
pub proof fn law_attr_scan_order(db: Db, a: Seq<char>, i: int, j: int)
    requires
        sound(db),
        searched(db, None, Some(a), None) matches Ok(ds) && 0 <= i < j < ds.len() && encoding(
            ds[i].v,
        ).len() <= GIANT_THRESHOLD && encoding(ds[j].v).len() <= GIANT_THRESHOLD,
    ensures
        searched(db, None, Some(a), None) matches Ok(ds) && (crate::codec::value_lt(
            ds[i].v,
            ds[j].v,
        ) || (ds[i].v == ds[j].v && ds[i].e < ds[j].e)),
{
    let aid = (find_attr(db.attrs, a)->0).0;
    let prefix = be_bytes(aid as nat, 4) + Seq::<u8>::empty();
    let ds = searched(db, None, Some(a), None)->Ok_0;
    lemma_scan_entries(db, Index::Ave, prefix);
    let found = matching(db.ix.ave, prefix);
    let c = ds[i];
    let d = ds[j];
    assert(scan_entry(db, Index::Ave, prefix, i, c));
    assert(scan_entry(db, Index::Ave, prefix, j, d));
    let ca = (find_attr(db.attrs, c.a)->0).0;
    let da = (find_attr(db.attrs, d.a)->0).0;
    let x = encoding(c.v);
    let y = encoding(d.v);
    assert(found[i].0 == ave_key(ca, x, c.e) && found[j].0 == ave_key(da, y, d.e) && storable(c.v)
        && storable(d.v)) by {
        reveal(key_of_datom);
    }
    lemma_index_sorted(db.ix, Index::Ave);
    lemma_matching(db.ix.ave, false, prefix);
    let from = rank(db.ix.ave, prefix) as int;
    assert(found[i] == db.ix.ave[from + i] && found[j] == db.ix.ave[from + j]);
    assert(lex_lt(found[i].0, found[j].0));
    assert(starts_with(db.ix.ave[from + i].0, prefix) && starts_with(
        db.ix.ave[from + j].0,
        prefix,
    ));
    lemma_u32_bytes(aid);
    lemma_ave_parts(ca, x, c.e);
    lemma_ave_parts(da, y, d.e);
    assert(prefix =~= be_bytes(aid as nat, 4));
    let ce = be_bytes(c.e as nat, 8);
    let de = be_bytes(d.e as nat, 8);
    assert(found[i].0 =~= prefix + (x + ce));
    assert(found[j].0 =~= prefix + (y + de));
    crate::bytes::lemma_lex_prefix(prefix, x + ce, y + de);
    if c.v != d.v {
        crate::codec::law_byte_order_is_value_order(c.v, d.v, ce, de);
    } else {
        crate::bytes::lemma_lex_prefix(x, ce, de);
        lemma_u64_order(d.e, c.e, Seq::empty(), Seq::empty());
        assert(ce + Seq::<u8>::empty() =~= ce);
        assert(de + Seq::<u8>::empty() =~= de);
        if d.e < c.e {
            crate::bytes::lemma_lex_asymmetric(de, ce);
        }
        lemma_lex_irreflexive(ce);
    }
}

/// An attribute's datoms are found in the order of their values' key forms, giants among them,
/// and those of one value in the order of the entities.
pub proof fn law_attr_scan_key_order(db: Db, a: Seq<char>, i: int, j: int)
    requires
        sound(db),
        searched(db, None, Some(a), None) matches Ok(ds) && 0 <= i < j < ds.len(),
    ensures
        searched(db, None, Some(a), None) matches Ok(ds) && exists|x: Seq<u8>, y: Seq<u8>|
            #![trigger keyed(db.ix, ds[i].v, x), keyed(db.ix, ds[j].v, y)]
            keyed(db.ix, ds[i].v, x) && keyed(db.ix, ds[j].v, y) && (lex_lt(x, y) || (x == y
                && ds[i].v == ds[j].v && ds[i].e < ds[j].e)),
{
    let aid = (find_attr(db.attrs, a)->0).0;
    let prefix = be_bytes(aid as nat, 4) + Seq::<u8>::empty();
    let ds = searched(db, None, Some(a), None)->Ok_0;
    lemma_scan_entries(db, Index::Ave, prefix);
    let found = matching(db.ix.ave, prefix);
    let c = ds[i];
    let d = ds[j];
    assert(scan_entry(db, Index::Ave, prefix, i, c));
    assert(scan_entry(db, Index::Ave, prefix, j, d));
    let ca = (find_attr(db.attrs, c.a)->0).0;
    let da = (find_attr(db.attrs, d.a)->0).0;
    reveal(key_of_datom);
    let x = choose|x: Seq<u8>| #[trigger]
        keyed(db.ix, c.v, x) && found[i].0 == ave_key(ca, x, c.e);
    let y = choose|y: Seq<u8>| #[trigger]
        keyed(db.ix, d.v, y) && found[j].0 == ave_key(da, y, d.e);
    assert(keyed(db.ix, c.v, x) && found[i].0 == ave_key(ca, x, c.e));
    assert(keyed(db.ix, d.v, y) && found[j].0 == ave_key(da, y, d.e));
    lemma_index_sorted(db.ix, Index::Ave);
    lemma_matching(db.ix.ave, false, prefix);
    let from = rank(db.ix.ave, prefix) as int;
    assert(found[i] == db.ix.ave[from + i] && found[j] == db.ix.ave[from + j]);
    assert(lex_lt(found[i].0, found[j].0));
    assert(starts_with(db.ix.ave[from + i].0, prefix) && starts_with(
        db.ix.ave[from + j].0,
        prefix,
    ));
    lemma_u32_bytes(aid);
    lemma_ave_parts(ca, x, c.e);
    lemma_ave_parts(da, y, d.e);
    assert(prefix =~= be_bytes(aid as nat, 4));
    let ce = be_bytes(c.e as nat, 8);
    let de = be_bytes(d.e as nat, 8);
    assert(found[i].0 =~= prefix + (x + ce));
    assert(found[j].0 =~= prefix + (y + de));
    crate::bytes::lemma_lex_prefix(prefix, x + ce, y + de);
    law_key_form_is_unique(db.ix, c.v, x, d.v, y);
    law_key_form_is_unique(db.ix, d.v, y, c.v, x);
    if x == y {
        crate::bytes::lemma_lex_prefix(x, ce, de);
        lemma_u64_order(d.e, c.e, Seq::empty(), Seq::empty());
        assert(ce + Seq::<u8>::empty() =~= ce);
        assert(de + Seq::<u8>::empty() =~= de);
        if d.e < c.e {
            crate::bytes::lemma_lex_asymmetric(de, ce);
        }
        lemma_lex_irreflexive(ce);
    } else {
        lemma_apart_order(x, ce, y, de);
    }
}

/// Where neither of two byte strings starts with the other, what follows does not decide.
proof fn lemma_apart_order(x: Seq<u8>, p: Seq<u8>, y: Seq<u8>, q: Seq<u8>)
    requires
        !starts_with(x, y),
        !starts_with(y, x),
    ensures
        lex_lt(x + p, y + q) == lex_lt(x, y),
    decreases x.len(),
{
    if x.len() == 0 {
        assert(y.take(0) =~= x);
    } else if y.len() == 0 {
        assert(x.take(0) =~= y);
    } else {
        assert((x + p)[0] == x[0] && (y + q)[0] == y[0]);
        if x[0] == y[0] {
            assert((x + p).skip(1) =~= x.skip(1) + p);
            assert((y + q).skip(1) =~= y.skip(1) + q);
            if starts_with(x.skip(1), y.skip(1)) {
                assert(x.take(y.len() as int) =~= seq![x[0]] + x.skip(1).take(y.len() - 1));
                assert(y =~= seq![y[0]] + y.skip(1));
            }
            if starts_with(y.skip(1), x.skip(1)) {
                assert(y.take(x.len() as int) =~= seq![y[0]] + y.skip(1).take(x.len() - 1));
                assert(x =~= seq![x[0]] + x.skip(1));
            }
            lemma_apart_order(x.skip(1), p, y.skip(1), q);
        }
    }
}

/// The next entity id is the smallest one at or above `from` that has a datom; there is none
/// exactly when no entity from there on has a datom.
pub proof fn law_next_entity(db: Db, from: u64)
    requires
        sound(db),
    ensures
        crate::store_model::next_entity(db.ix.eav, from) matches Ok(r) && match r {
            Some(e) => e >= from && (exists|d: DatomView| #[trigger] has_datom(db, d) && d.e == e)
                && forall|d: DatomView| #[trigger] has_datom(db, d) && d.e >= from ==> d.e >= e,
            None => forall|d: DatomView| #[trigger] has_datom(db, d) ==> d.e < from,
        },
{
    let eav = db.ix.eav;
    let key = be_bytes(from as nat, 8);
    lemma_index_sorted(db.ix, Index::Eav);
    crate::rows::lemma_cut(eav, false, crate::rows::front(key));
    let at = rank(eav, key) as int;
    if at < eav.len() {
        assert(has_key(eav, eav[at].0));
        let (e, aid, v, x) = lemma_eav_form(db.ix, db.attrs, eav[at].0);
        lemma_eav_parts(e, aid, x);
        lemma_eav_below(e, aid, x, from);
        lemma_entry_sound(db, Index::Eav, eav[at].0);
        let own = entry_datom(db, Index::Eav, eav[at].0)->Ok_0;
        assert(own.e == e);
        assert forall|d: DatomView| #[trigger] has_datom(db, d) && d.e >= from implies d.e >= e by {
            let bid = (find_attr(db.attrs, d.a)->0).0;
            let y = choose|y: Seq<u8>| #[trigger] keyed(db.ix, d.v, y) && has_key(
                eav,
                eav_key(d.e, bid, y),
            );
            let j = choose|j: int| 0 <= j < eav.len() && (#[trigger] eav[j]).0 == eav_key(
                d.e,
                bid,
                y,
            );
            lemma_eav_below(d.e, bid, y, from);
            assert(j >= at);
            if d.e < e {
                lemma_u64_order(
                    d.e,
                    e,
                    be_bytes(bid as nat, 4) + y,
                    be_bytes(aid as nat, 4) + x,
                );
                assert(eav_key(d.e, bid, y) =~= be_bytes(d.e as nat, 8) + (be_bytes(bid as nat, 4)
                    + y));
                assert(eav_key(e, aid, x) =~= be_bytes(e as nat, 8) + (be_bytes(aid as nat, 4)
                    + x));
                crate::bytes::lemma_lex_asymmetric(eav[j].0, eav[at].0);
                lemma_lex_irreflexive(eav[at].0);
                if j > at {
                    assert(lex_lt(eav[at].0, eav[j].0));
                }
            }
        }
    } else {
        assert forall|d: DatomView| #[trigger] has_datom(db, d) implies d.e < from by {
            let bid = (find_attr(db.attrs, d.a)->0).0;
            let y = choose|y: Seq<u8>| #[trigger] keyed(db.ix, d.v, y) && has_key(
                eav,
                eav_key(d.e, bid, y),
            );
            let j = choose|j: int| 0 <= j < eav.len() && (#[trigger] eav[j]).0 == eav_key(
                d.e,
                bid,
                y,
            );
            lemma_eav_below(d.e, bid, y, from);
        }
    }
}

/// An `eav` key sorts below an entity id exactly when its entity is below.
proof fn lemma_eav_below(e: u64, aid: u32, x: Seq<u8>, from: u64)
    ensures
        lex_lt(eav_key(e, aid, x), be_bytes(from as nat, 8)) <==> e < from,
{
    let key = be_bytes(from as nat, 8);
    let rest = be_bytes(aid as nat, 4) + x;
    let k = eav_key(e, aid, x);
    assert(k =~= be_bytes(e as nat, 8) + rest);
    assert(key =~= key + Seq::<u8>::empty());
    lemma_u64_order(e, from, rest, Seq::empty());
    lemma_u64_order(from, e, Seq::empty(), rest);
    if from < e {
        crate::bytes::lemma_lex_asymmetric(key, k);
    } else if from == e {
        crate::prefix::lemma_extension_starts(key, rest);
        crate::prefix::lemma_split_prefix_key(k, key);
    }
}

} // verus!
