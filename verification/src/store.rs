//! Datalog triple store over ordered tables.
//!
//! Datoms live in three counted indexes whose keys are order-preserving byte encodings.
//! Attributes are interned to 4-byte ids in the schema table; values whose encoding exceeds the
//! giant threshold overflow to the content-addressed giants table. Counts and ranks come from
//! the counted tables, so `count`, `cardinality` and `sample_ave` need no scans.
//!
//! The store speaks raw adds and retracts of resolved datoms.

use sha2::{Digest, Sha256};
use vstd::prelude::*;
use vstd::utf8::*;
use crate::bytes::{
    be_bytes, be_value, bytes_copy, has_prefix, lex_compare, lex_lt, push_be, push_bytes, push_u64,
    read_be, slice_of, starts_with, Rank,
};
use crate::codec::{
    decode, encode_inline, encoding, escaped, same_value, Datum, Decoded, StoreValue, GIANT_PREFIX,
    GIANT_THRESHOLD, TAG_GIANT_BYTES, TAG_GIANT_STR, TAG_REF,
};
use crate::lmdb::{
    countable, fits, loaded, opening, opt_view, tables_wf, table_named, with_rows, Dbi, DbiFlags,
    Env, EnvFlags, EnvOptions, Error, Snapshot, Table, TableView,
};
use crate::prefix::{lemma_matching, lemma_matching_count, matching, prefix_successor};
use crate::rows::{before_cut, del_row, front, lookup, put_row, rank, sorted_rows, Row};
use crate::rows::{law_lookup_after_put, lemma_cut};
use crate::store_model::{
    AttrProps, AttrRec, BoundView, DatomView, Db, Fault, Index, Indexes, OpView, Part, aid_name,
    apply, apply_all, ave_key, bound_prefix, bump, counted, counter, delete_all, delete_datom,
    delete_encoded, eav_key, entity_values, entry_datom, entry_datoms, find_attr, giant_key,
    giant_raw, having_value, index_name, insert_datom, intern, keep_value, key_range, limited,
    max_added, meta_max_eid, meta_next_aid, meta_next_giant, next_entity, props_byte,
    range_counted, range_rows, read_key, read_opt_key, read_schema, resolve, room, sample_datom,
    sampled, samples, scan, schema_attr, searched, set_attr_rec, sha256_digest, sliced,
    stored_max_eid, transacted, unique_names, vae_key, without_attr, write_key,
};
use crate::text::{same_text, text_from_utf8};

use crate::store_history::{goes_through, reached, stepped, Step};
use crate::store_laws::{admissible, aid_room, sound};
use crate::store_laws::{law_empty_is_sound, law_intern, law_transact};

verus! {

/// One resolved datom.
#[derive(Debug, PartialEq)]
pub struct Datom {
    pub e: u64,
    pub a: String,
    pub v: StoreValue,
}

impl Datom {
    /// What the datom holds.
    pub open spec fn view(&self) -> DatomView {
        DatomView { e: self.e, a: self.a@, v: self.v.view() }
    }
}

/// What each datom holds.
pub open spec fn datom_views(ds: Seq<Datom>) -> Seq<DatomView> {
    Seq::new(ds.len(), |i: int| ds[i].view())
}

/// One transaction operation over resolved datoms.
#[derive(Debug)]
pub enum Op {
    Add { e: u64, a: String, v: StoreValue },
    Retract { e: u64, a: String, v: StoreValue },
}

impl Op {
    /// What the operation holds.
    pub open spec fn view(&self) -> OpView {
        match self {
            Op::Add { e, a, v } => OpView::Add { e: *e, a: a@, v: v.view() },
            Op::Retract { e, a, v } => OpView::Retract { e: *e, a: a@, v: v.view() },
        }
    }
}

/// What each operation holds.
pub open spec fn op_views(ops: Seq<Op>) -> Seq<OpView> {
    Seq::new(ops.len(), |i: int| ops[i].view())
}

#[derive(Debug, PartialEq)]
pub enum StoreError {
    Lmdb(Error),
    Codec(&'static str),
    /// A giant id in an index key had no giants entry.
    MissingGiant(u64),
}

impl StoreError {
    /// What the error says.
    pub open spec fn view(&self) -> Fault {
        match self {
            StoreError::Lmdb(e) => Fault::Lmdb(*e),
            StoreError::Codec(m) => Fault::Codec(m@),
            StoreError::MissingGiant(id) => Fault::MissingGiant(*id),
        }
    }
}

/// One declared attribute.
pub struct Attr {
    pub name: String,
    pub aid: u32,
    pub props: AttrProps,
}

/// What the attributes hold.
pub open spec fn attr_recs(attrs: Seq<Attr>) -> Seq<AttrRec> {
    Seq::new(
        attrs.len(),
        |i: int| AttrRec { name: attrs[i].name@, aid: attrs[i].aid, props: attrs[i].props },
    )
}

/// The handles of the seven tables.
#[derive(Clone, Copy)]
pub struct Handles {
    pub eav: Dbi,
    pub ave: Dbi,
    pub vae: Dbi,
    pub schema: Dbi,
    pub meta: Dbi,
    pub giants: Dbi,
    pub giant_ids: Dbi,
}

impl Handles {
    /// The handle of one table.
    pub open spec fn at(self, part: Part) -> Dbi {
        match part {
            Part::Eav => self.eav,
            Part::Ave => self.ave,
            Part::Vae => self.vae,
            Part::Schema => self.schema,
            Part::Meta => self.meta,
            Part::Giants => self.giants,
            Part::GiantIds => self.giant_ids,
        }
    }

    fn get(&self, part: Part) -> (r: Dbi)
        ensures
            r == self.at(part),
    {
        match part {
            Part::Eav => self.eav,
            Part::Ave => self.ave,
            Part::Vae => self.vae,
            Part::Schema => self.schema,
            Part::Meta => self.meta,
            Part::Giants => self.giants,
            Part::GiantIds => self.giant_ids,
        }
    }
}

/// The table is one of the three counted ones.
pub open spec fn is_index(part: Part) -> bool {
    part == Part::Eav || part == Part::Ave || part == Part::Vae
}

/// The name of one table.
pub open spec fn part_name(p: Part) -> Seq<char> {
    table_plan()[part_slot(p)].0
}

/// The position of one table in the plan.
pub open spec fn part_slot(p: Part) -> int {
    match p {
        Part::Eav => 0,
        Part::Ave => 1,
        Part::Vae => 2,
        Part::Schema => 3,
        Part::Meta => 4,
        Part::Giants => 5,
        Part::GiantIds => 6,
    }
}

/// The handles name the seven planned tables, which are different ones without duplicates, the
/// indexes counted.
pub open spec fn tables_ok(tables: Seq<TableView>, h: Handles) -> bool {
    &&& tables_wf(tables)
    &&& forall|p: Part| #![trigger h.at(p)] table_named(tables, part_name(p)) == Some(
        h.at(p).0 as nat,
    ) && fits(tables[h.at(p).0 as int], table_plan()[part_slot(p)].1)
    &&& forall|p: Part| (#[trigger] h.at(p)).0 < tables.len() && !tables[h.at(p).0 as int].dup()
        && (is_index(p) ==> tables[h.at(p).0 as int].counted())
    &&& forall|p: Part, q: Part| p != q ==> (#[trigger] h.at(p)).0 != (#[trigger] h.at(q)).0
}

/// The rows behind the handles.
pub open spec fn indexes(tables: Seq<TableView>, h: Handles) -> Indexes {
    Indexes {
        eav: tables[h.eav.0 as int].rows,
        ave: tables[h.ave.0 as int].rows,
        vae: tables[h.vae.0 as int].rows,
        schema: tables[h.schema.0 as int].rows,
        meta: tables[h.meta.0 as int].rows,
        giants: tables[h.giants.0 as int].rows,
        giant_ids: tables[h.giant_ids.0 as int].rows,
    }
}

/// Every table is sorted and keeps one value per key.
pub open spec fn ix_sorted(ix: Indexes) -> bool {
    forall|p: Part| sorted_rows(#[trigger] ix.rows(p), false)
}

proof fn lemma_tables_sorted(tables: Seq<TableView>, h: Handles)
    requires
        tables_ok(tables, h),
    ensures
        ix_sorted(indexes(tables, h)),
        forall|p: Part| (#[trigger] indexes(tables, h).rows(p)) == tables[h.at(p).0 as int].rows,
{
    assert forall|p: Part| sorted_rows(#[trigger] indexes(tables, h).rows(p), false) by {
        assert(h.at(p).0 < tables.len());
        assert(tables[h.at(p).0 as int].wf());
    }
}

proof fn lemma_with_rows(tables: Seq<TableView>, h: Handles, part: Part, rows: Seq<Row>)
    requires
        tables_ok(tables, h),
        tables_wf(with_rows(tables, h.at(part).0 as int, rows)),
    ensures
        tables_ok(with_rows(tables, h.at(part).0 as int, rows), h),
        indexes(with_rows(tables, h.at(part).0 as int, rows), h) == indexes(tables, h).with(
            part,
            rows,
        ),
{
    let next = with_rows(tables, h.at(part).0 as int, rows);
    assert(h.at(part).0 < tables.len());
    assert forall|p: Part| (#[trigger] h.at(p)).0 < next.len() && !next[h.at(p).0 as int].dup() && (
    is_index(p) ==> next[h.at(p).0 as int].counted()) by {
        assert(h.at(p).0 < tables.len());
    }
    assert forall|p: Part| #![trigger h.at(p)] table_named(next, part_name(p)) == Some(
        h.at(p).0 as nat,
    ) && fits(next[h.at(p).0 as int], table_plan()[part_slot(p)].1) by {
        assert(h.at(p).0 < tables.len());
        assert forall|i: int| 0 <= i < tables.len() implies (#[trigger] next[i]).name
            == tables[i].name by {}
        lemma_same_names(tables, next, part_name(p));
    }
    let i = h.at(part).0;
    assert(part != Part::Eav ==> h.at(Part::Eav).0 != i);
    assert(part != Part::Ave ==> h.at(Part::Ave).0 != i);
    assert(part != Part::Vae ==> h.at(Part::Vae).0 != i);
    assert(part != Part::Schema ==> h.at(Part::Schema).0 != i);
    assert(part != Part::Meta ==> h.at(Part::Meta).0 != i);
    assert(part != Part::Giants ==> h.at(Part::Giants).0 != i);
    assert(part != Part::GiantIds ==> h.at(Part::GiantIds).0 != i);
}

/// Which table a name leads to depends on the names alone.
pub proof fn lemma_same_names(tables: Seq<TableView>, next: Seq<TableView>, name: Seq<char>)
    requires
        tables.len() == next.len(),
        forall|i: int| 0 <= i < tables.len() ==> (#[trigger] next[i]).name == tables[i].name,
    ensures
        table_named(tables, name) == table_named(next, name),
    decreases tables.len(),
{
    if tables.len() > 0 {
        let a = tables.drop_last();
        let b = next.drop_last();
        assert forall|i: int| 0 <= i < a.len() implies (#[trigger] b[i]).name == a[i].name by {
            assert(next[i].name == tables[i].name);
        }
        lemma_same_names(a, b, name);
        assert(next[next.len() - 1].name == tables[tables.len() - 1].name);
    }
}

/// Store `value` under `key` in one table.
fn put(snap: &mut Snapshot, h: &Handles, part: Part, key: &[u8], value: &[u8])
    requires
        tables_ok(old(snap)@, *h),
    ensures
        tables_ok(final(snap)@, *h),
        indexes(final(snap)@, *h) == indexes(old(snap)@, *h).put(part, key@, value@),
{
    let ghost before = snap@;
    proof {
        lemma_tables_sorted(before, *h);
        assert(h.at(part).0 < before.len());
    }
    let _ = snap.put(h.get(part), key, value);
    proof {
        lemma_with_rows(
            before,
            *h,
            part,
            put_row(before[h.at(part).0 as int].rows, false, key@, value@),
        );
    }
}

/// Drop `key` from one table.
fn del(snap: &mut Snapshot, h: &Handles, part: Part, key: &[u8])
    requires
        tables_ok(old(snap)@, *h),
    ensures
        tables_ok(final(snap)@, *h),
        indexes(final(snap)@, *h) == indexes(old(snap)@, *h).del(part, key@),
{
    let ghost before = snap@;
    proof {
        lemma_tables_sorted(before, *h);
        assert(h.at(part).0 < before.len());
    }
    let _ = snap.del(h.get(part), key, None);
    proof {
        lemma_with_rows(
            before,
            *h,
            part,
            del_row(before[h.at(part).0 as int].rows, false, key@, None),
        );
    }
}

/// The value stored under `key` in one table.
fn get<'a>(snap: &'a Snapshot, h: &Handles, part: Part, key: &[u8]) -> (r: Option<&'a [u8]>)
    requires
        tables_ok(snap@, *h),
    ensures
        opt_view(r) == lookup(indexes(snap@, *h).rows(part), key@),
{
    proof {
        lemma_tables_sorted(snap@, *h);
        assert(h.at(part).0 < snap@.len());
    }
    match snap.get(h.get(part), key) {
        Ok(v) => v,
        Err(_) => None,
    }
}

// ---------------------------------------------------------------------------
// Keys
// ---------------------------------------------------------------------------

fn eav_key_of(e: u64, aid: u32, venc: &[u8]) -> (k: Vec<u8>)
    ensures
        k@ == eav_key(e, aid, venc@),
{
    let mut k: Vec<u8> = Vec::new();
    push_u64(e, &mut k);
    push_be(aid as u64, 4, &mut k);
    push_bytes(&mut k, venc);
    assert(k@ =~= eav_key(e, aid, venc@));
    k
}

fn ave_key_of(aid: u32, venc: &[u8], e: u64) -> (k: Vec<u8>)
    ensures
        k@ == ave_key(aid, venc@, e),
{
    let mut k: Vec<u8> = Vec::new();
    push_be(aid as u64, 4, &mut k);
    push_bytes(&mut k, venc);
    push_u64(e, &mut k);
    assert(k@ =~= ave_key(aid, venc@, e));
    k
}

fn vae_key_of(target: u64, aid: u32, e: u64) -> (k: Vec<u8>)
    ensures
        k@ == vae_key(target, aid, e),
{
    let mut k: Vec<u8> = Vec::new();
    push_u64(target, &mut k);
    push_be(aid as u64, 4, &mut k);
    push_u64(e, &mut k);
    assert(k@ =~= vae_key(target, aid, e));
    k
}

/// The eight bytes of `n`.
fn key_u64(n: u64) -> (k: Vec<u8>)
    ensures
        k@ == be_bytes(n as nat, 8),
{
    let mut k: Vec<u8> = Vec::new();
    push_u64(n, &mut k);
    assert(k@ =~= be_bytes(n as nat, 8));
    k
}

/// The four bytes of `aid`.
fn key_aid(aid: u32) -> (k: Vec<u8>)
    ensures
        k@ == be_bytes(aid as nat, 4),
{
    let mut k: Vec<u8> = Vec::new();
    push_be(aid as u64, 4, &mut k);
    assert(k@ =~= be_bytes(aid as nat, 4));
    k
}

/// No bytes.
fn no_bytes() -> (k: Vec<u8>)
    ensures
        k@ == Seq::<u8>::empty(),
{
    Vec::new()
}

// ---------------------------------------------------------------------------
// Attributes and counters
// ---------------------------------------------------------------------------

/// The id and properties of an attribute.
fn find_attr_in(attrs: &Vec<Attr>, name: &str) -> (r: Option<(u32, AttrProps)>)
    ensures
        r == find_attr(attr_recs(attrs@), name@),
{
    let ghost recs = attr_recs(attrs@);
    let mut n: usize = attrs.len();
    assert(recs.take(n as int) =~= recs);
    while n > 0
        invariant
            n <= attrs.len(),
            recs == attr_recs(attrs@),
            find_attr(recs, name@) == find_attr(recs.take(n as int), name@),
        decreases n,
    {
        assert(recs.take(n as int).drop_last() =~= recs.take(n - 1));
        assert(recs.take(n as int).last() == recs[n - 1]);
        n = n - 1;
        if same_text(attrs[n].name.as_str(), name) {
            return Some((attrs[n].aid, attrs[n].props));
        }
    }
    None
}

/// The name of the attribute that took the id last.
fn aid_name_in(attrs: &Vec<Attr>, aid: u32) -> (r: Option<String>)
    ensures
        match r {
            Some(s) => aid_name(attr_recs(attrs@), aid) == Some(s@),
            None => aid_name(attr_recs(attrs@), aid) is None,
        },
{
    let ghost recs = attr_recs(attrs@);
    let mut n: usize = attrs.len();
    assert(recs.take(n as int) =~= recs);
    while n > 0
        invariant
            n <= attrs.len(),
            recs == attr_recs(attrs@),
            aid_name(recs, aid) == aid_name(recs.take(n as int), aid),
        decreases n,
    {
        assert(recs.take(n as int).drop_last() =~= recs.take(n - 1));
        assert(recs.take(n as int).last() == recs[n - 1]);
        n = n - 1;
        if attrs[n].aid == aid {
            return Some(attrs[n].name.clone());
        }
    }
    None
}

/// Declare an attribute anew.
fn set_attr_in(attrs: &Vec<Attr>, name: &str, aid: u32, props: AttrProps) -> (r: Vec<Attr>)
    ensures
        attr_recs(r@) == set_attr_rec(attr_recs(attrs@), AttrRec { name: name@, aid, props }),
{
    let ghost recs = attr_recs(attrs@);
    let mut r: Vec<Attr> = Vec::new();
    let mut i: usize = 0;
    assert(attr_recs(r@) =~= without_attr(recs.take(0), name@));
    while i < attrs.len()
        invariant
            i <= attrs.len(),
            recs == attr_recs(attrs@),
            attr_recs(r@) == without_attr(recs.take(i as int), name@),
        decreases attrs.len() - i,
    {
        assert(recs.take(i + 1).drop_last() =~= recs.take(i as int));
        assert(recs.take(i + 1).last() == recs[i as int]);
        if !same_text(attrs[i].name.as_str(), name) {
            let ghost before = attr_recs(r@);
            r.push(
                Attr { name: attrs[i].name.clone(), aid: attrs[i].aid, props: attrs[i].props },
            );
            assert(attr_recs(r@) =~= before.push(recs[i as int]));
        }
        i = i + 1;
    }
    assert(recs.take(recs.len() as int) =~= recs);
    let ghost before = attr_recs(r@);
    r.push(Attr { name: name.to_owned(), aid, props });
    assert(attr_recs(r@) =~= before.push(AttrRec { name: name@, aid, props }));
    r
}

/// A copy of the attributes.
fn copy_attrs(attrs: &Vec<Attr>) -> (r: Vec<Attr>)
    ensures
        attr_recs(r@) == attr_recs(attrs@),
{
    let mut r: Vec<Attr> = Vec::new();
    let mut i: usize = 0;
    while i < attrs.len()
        invariant
            i <= attrs.len(),
            attr_recs(r@) == attr_recs(attrs@).take(i as int),
        decreases attrs.len() - i,
    {
        let ghost before = attr_recs(r@);
        r.push(Attr { name: attrs[i].name.clone(), aid: attrs[i].aid, props: attrs[i].props });
        assert(attr_recs(r@) =~= before.push(attr_recs(attrs@)[i as int]));
        assert(attr_recs(attrs@).take(i + 1) =~= before.push(attr_recs(attrs@)[i as int]));
        i = i + 1;
    }
    assert(attr_recs(attrs@).take(attrs@.len() as int) =~= attr_recs(attrs@));
    r
}

/// Dropping a name drops no other and keeps names apart.
pub proof fn lemma_without_attr(attrs: Seq<AttrRec>, name: Seq<char>)
    requires
        unique_names(attrs),
    ensures
        unique_names(without_attr(attrs, name)),
        forall|i: int| 0 <= i < without_attr(attrs, name).len() ==> (
        #[trigger] without_attr(attrs, name)[i]).name != name && attrs.contains(
            without_attr(attrs, name)[i],
        ),
    decreases attrs.len(),
{
    if attrs.len() > 0 {
        let init = attrs.drop_last();
        assert(unique_names(init)) by {
            assert forall|i: int, j: int| #![trigger init[i], init[j]]
                0 <= i < j < init.len() implies init[i].name != init[j].name by {
                assert(init[i] == attrs[i] && init[j] == attrs[j]);
            }
        }
        lemma_without_attr(init, name);
        let less = without_attr(init, name);
        let all = without_attr(attrs, name);
        let last = attrs.last();
        assert forall|i: int| 0 <= i < less.len() implies less[i].name != last.name
            && attrs.contains(#[trigger] less[i]) by {
            assert(init.contains(less[i]));
            let j = choose|j: int| 0 <= j < init.len() && init[j] == less[i];
            assert(attrs[j] == less[i]);
            assert(attrs[attrs.len() - 1] == last);
        }
        assert(attrs[attrs.len() - 1] == last);
        assert(attrs.contains(last));
        assert forall|i: int, j: int| #![trigger all[i], all[j]]
            0 <= i < j < all.len() implies all[i].name != all[j].name by {
            if j < less.len() {
                assert(all[i] == less[i] && all[j] == less[j]);
            } else {
                assert(all[i] == less[i] && all[j] == last);
            }
        }
        assert forall|i: int| 0 <= i < all.len() implies (#[trigger] all[i]).name != name
            && attrs.contains(all[i]) by {
            if i < less.len() {
                assert(all[i] == less[i]);
            } else {
                assert(all[i] == last);
            }
        }
    }
}

/// Declaring keeps names apart.
pub proof fn lemma_set_attr_unique(attrs: Seq<AttrRec>, rec: AttrRec)
    requires
        unique_names(attrs),
    ensures
        unique_names(set_attr_rec(attrs, rec)),
{
    lemma_without_attr(attrs, rec.name);
    let less = without_attr(attrs, rec.name);
    let all = set_attr_rec(attrs, rec);
    assert forall|i: int, j: int| #![trigger all[i], all[j]]
        0 <= i < j < all.len() implies all[i].name != all[j].name by {
        assert(all[i] == less[i]);
        if j < less.len() {
            assert(all[j] == less[j]);
        }
    }
}

/// The state behind a snapshot and a list of attributes.
pub open spec fn db_of(tables: Seq<TableView>, h: Handles, attrs: Seq<Attr>) -> Db {
    Db { ix: indexes(tables, h), attrs: attr_recs(attrs) }
}

/// Raise a counter by one.
fn bump_counter(snap: &mut Snapshot, h: &Handles, key: &[u8], Ghost(attrs): Ghost<Seq<AttrRec>>) -> (r:
    Result<u64, StoreError>)
    requires
        tables_ok(old(snap)@, *h),
        counter(indexes(old(snap)@, *h).meta, key@) matches Ok(c) ==> c < u64::MAX,
    ensures
        tables_ok(final(snap)@, *h),
        match (r, bump(Db { ix: indexes(old(snap)@, *h), attrs }, key@)) {
            (Ok(n), Ok((db, want))) => n as nat == want && db == (Db {
                ix: indexes(final(snap)@, *h),
                attrs,
            }),
            (Err(e), Err(f)) => e.view() == f && final(snap)@ == old(snap)@,
            _ => false,
        },
{
    let current: u64 = match get(snap, h, Part::Meta, key) {
        None => 0,
        Some(b) => {
            if b.len() != 8 {
                return Err(StoreError::Codec("bad meta counter"));
            }
            assert(b@.subrange(0, 8) =~= b@);
            read_be(b, 0, 8)
        },
    };
    let next: u64 = current + 1;
    put(snap, h, Part::Meta, key, key_u64(next).as_slice());
    Ok(next)
}

fn has_counter_room(snap: &Snapshot, h: &Handles, key: &[u8], n: u64) -> (r: bool)
    requires
        tables_ok(snap@, *h),
    ensures
        r == (counter(indexes(snap@, *h).meta, key@) matches Ok(c) ==> c + n <= u64::MAX),
{
    match get(snap, h, Part::Meta, key) {
        None => true,
        Some(b) => {
            if b.len() != 8 {
                return true;
            }
            assert(b@.subrange(0, 8) =~= b@);
            read_be(b, 0, 8) <= u64::MAX - n
        },
    }
}

/// The digest of `raw`: `Sha256::digest` gives the 32 bytes that SHA-256 defines for it.
#[verifier::external_body]
fn sha256(raw: &[u8]) -> (r: Vec<u8>)
    ensures
        r@ == sha256_digest(raw@),
        r@.len() == 32,
{
    Sha256::digest(raw).to_vec()
}

/// Escaping at most doubles the text and adds the terminator.
proof fn lemma_escaped_len(raw: Seq<u8>)
    ensures
        escaped(raw).len() <= 2 * raw.len() + 2,
    decreases raw.len(),
{
    if raw.len() > 0 {
        lemma_escaped_len(raw.skip(1));
    }
}

/// The meta keys differ.
proof fn lemma_meta_keys()
    ensures
        meta_max_eid() != meta_next_aid(),
        meta_max_eid() != meta_next_giant(),
        meta_next_aid() != meta_next_giant(),
{
    reveal_strlit("max-eid");
    reveal_strlit("next-aid");
    reveal_strlit("next-giant");
    encode_utf8_decode_utf8("max-eid"@);
    encode_utf8_decode_utf8("next-aid"@);
    encode_utf8_decode_utf8("next-giant"@);
}

/// Raising one counter leaves room for one less, and touches no other meta entry.
proof fn lemma_bump_room(db: Db, key: Seq<u8>, n: nat)
    requires
        sorted_rows(db.ix.meta, false),
        room(db.ix.meta, n + 1),
        key == meta_next_aid() || key == meta_next_giant(),
    ensures
        bump(db, key) matches Ok((next, m)) ==> m <= u64::MAX && room(next.ix.meta, n) && (key
            == meta_next_aid() ==> (counter(next.ix.meta, meta_next_giant()) matches Ok(c) ==> c + n
            + 1 <= u64::MAX)) && lookup(next.ix.meta, meta_max_eid()) == lookup(
            db.ix.meta,
            meta_max_eid(),
        ),
{
    lemma_meta_keys();
    if let Ok((next, m)) = bump(db, key) {
        law_lookup_after_put(db.ix.meta, key, be_bytes(m, 8), meta_next_aid());
        law_lookup_after_put(db.ix.meta, key, be_bytes(m, 8), meta_next_giant());
        law_lookup_after_put(db.ix.meta, key, be_bytes(m, 8), meta_max_eid());
        crate::bytes::lemma_pow256_8();
        crate::bytes::lemma_be_len(m, 8);
        crate::bytes::lemma_be_round_trip(m, 8);
    }
}

/// Interning leaves the giant counter alone and raises the attribute counter at most once.
proof fn lemma_intern_room(db: Db, name: Seq<char>, props: Option<AttrProps>, n: nat)
    requires
        ix_sorted(db.ix),
        room(db.ix.meta, n + 1),
    ensures
        intern(db, name, props) matches Ok((next, _, _)) ==> room(next.ix.meta, n) && (counter(
            next.ix.meta,
            meta_next_giant(),
        ) matches Ok(c) ==> c + n + 1 <= u64::MAX) && lookup(next.ix.meta, meta_max_eid())
            == lookup(db.ix.meta, meta_max_eid()),
{
    assert(sorted_rows(db.ix.rows(Part::Meta), false));
    if find_attr(db.attrs, name) is None {
        lemma_bump_room(db, meta_next_aid(), n);
    }
}

/// The properties as one byte.
fn props_to_byte(props: AttrProps) -> (b: u8)
    ensures
        b == props_byte(props),
{
    let many: u8 = if props.cardinality_many {
        1
    } else {
        0
    };
    let refs: u8 = if props.ref_type {
        2
    } else {
        0
    };
    many + refs
}

/// Find an attribute or give it the next id; `props` declares its properties anew.
fn intern_attr(
    snap: &mut Snapshot,
    h: &Handles,
    attrs: &mut Vec<Attr>,
    name: &str,
    props: Option<AttrProps>,
) -> (r: Result<(u32, AttrProps), StoreError>)
    requires
        tables_ok(old(snap)@, *h),
        counter(indexes(old(snap)@, *h).meta, meta_next_aid()) matches Ok(c) ==> c < u64::MAX,
    ensures
        tables_ok(final(snap)@, *h),
        unique_names(attr_recs(old(attrs)@)) ==> unique_names(attr_recs(final(attrs)@)),
        match (r, intern(db_of(old(snap)@, *h, old(attrs)@), name@, props)) {
            (Ok((aid, p)), Ok((db, want_aid, want_p))) => aid == want_aid && p == want_p && db
                == db_of(final(snap)@, *h, final(attrs)@),
            (Err(e), Err(f)) => e.view() == f,
            _ => false,
        },
{
    let existing = find_attr_in(attrs, name);
    let ghost recs = attr_recs(attrs@);
    let (aid, props): (u32, AttrProps) = match (existing, props) {
        (Some((aid, current)), None) => {
            return Ok((aid, current));
        },
        (Some((aid, _)), Some(p)) => (aid, p),
        (None, p) => {
            let n = match bump_counter(snap, h, "next-aid".as_bytes(), Ghost(recs)) {
                Ok(n) => n,
                Err(e) => {
                    return Err(e);
                },
            };
            let p = match p {
                Some(p) => p,
                None => AttrProps::default(),
            };
            ((n % 0x1_0000_0000) as u32, p)
        },
    };
    let mut rec: Vec<u8> = key_aid(aid);
    rec.push(props_to_byte(props));
    put(snap, h, Part::Schema, name.as_bytes(), rec.as_slice());
    proof {
        if unique_names(recs) {
            lemma_set_attr_unique(recs, AttrRec { name: name@, aid, props });
        }
    }
    let next = set_attr_in(attrs, name, aid, props);
    *attrs = next;
    Ok((aid, props))
}

/// A giant's key: the tag, the first raw bytes and the id.
fn giant_key_of(tag: u8, raw: &[u8], id: u64) -> (k: Vec<u8>)
    requires
        raw.len() >= GIANT_PREFIX,
    ensures
        k@ == giant_key(tag, raw@, id as nat),
{
    let mut k: Vec<u8> = Vec::new();
    k.push(tag);
    push_bytes(&mut k, slice_of(raw, 0, GIANT_PREFIX).as_slice());
    push_u64(id, &mut k);
    assert(raw@.subrange(0, GIANT_PREFIX as int) =~= raw@.take(GIANT_PREFIX as int));
    assert(k@ =~= giant_key(tag, raw@, id as nat));
    k
}

/// The giant tag and raw bytes of a value that may overflow to the giants table.
fn giant_raw_of(v: &StoreValue) -> (r: Option<(u8, &[u8])>)
    ensures
        match (r, giant_raw(v.view())) {
            (Some((tag, raw)), Some((want_tag, want))) => tag == want_tag && raw@ == want,
            (None, None) => true,
            _ => false,
        },
{
    match v {
        StoreValue::Str(s) => Some((TAG_GIANT_STR, s.as_str().as_bytes())),
        StoreValue::Bytes(b) => Some((TAG_GIANT_BYTES, b.as_slice())),
        _ => None,
    }
}

/// An oversized value has more raw bytes than a giant key keeps.
proof fn lemma_giant_is_long(v: Datum)
    requires
        encoding(v).len() > GIANT_THRESHOLD,
    ensures
        giant_raw(v) matches Some((_, raw)) ==> raw.len() >= GIANT_PREFIX,
{
    if let Some((_, raw)) = giant_raw(v) {
        lemma_escaped_len(raw);
    }
}

/// Encode `v` for use inside an index key, spilling oversized values to the giants table
/// (content-addressed, so equal values share an id).
fn encode_value_for_key(
    snap: &mut Snapshot,
    h: &Handles,
    v: &StoreValue,
    Ghost(attrs): Ghost<Seq<AttrRec>>,
) -> (r: Result<Vec<u8>, StoreError>)
    requires
        tables_ok(old(snap)@, *h),
        counter(indexes(old(snap)@, *h).meta, meta_next_giant()) matches Ok(c) ==> c < u64::MAX,
    ensures
        tables_ok(final(snap)@, *h),
        match (r, write_key(Db { ix: indexes(old(snap)@, *h), attrs }, v.view())) {
            (Ok(k), Ok((db, want))) => k@ == want && db == (Db {
                ix: indexes(final(snap)@, *h),
                attrs,
            }),
            (Err(e), Err(f)) => e.view() == f,
            _ => false,
        },
{
    let mut inline: Vec<u8> = Vec::new();
    encode_inline(v, &mut inline);
    assert(inline@ =~= encoding(v.view()));
    if inline.len() <= GIANT_THRESHOLD {
        return Ok(inline);
    }
    proof {
        lemma_giant_is_long(v.view());
    }
    let (tag, raw) = match giant_raw_of(v) {
        Some(pair) => pair,
        None => {
            return Err(StoreError::Codec("only strings and bytes can be giant"));
        },
    };
    let digest = sha256(raw);
    let known: Option<u64> = match get(snap, h, Part::GiantIds, digest.as_slice()) {
        Some(existing) => {
            if existing.len() != 8 {
                return Err(StoreError::Codec("bad giant id"));
            }
            assert(existing@.subrange(0, 8) =~= existing@);
            Some(read_be(existing, 0, 8))
        },
        None => None,
    };
    let id: u64 = match known {
        Some(id) => id,
        None => {
            let id = match bump_counter(snap, h, "next-giant".as_bytes(), Ghost(attrs)) {
                Ok(n) => n,
                Err(e) => {
                    return Err(e);
                },
            };
            let mut stored: Vec<u8> = Vec::new();
            stored.push(tag);
            push_bytes(&mut stored, raw);
            assert(stored@ =~= seq![tag] + raw@);
            put(snap, h, Part::Giants, key_u64(id).as_slice(), stored.as_slice());
            put(snap, h, Part::GiantIds, digest.as_slice(), key_u64(id).as_slice());
            id
        },
    };
    Ok(giant_key_of(tag, raw, id))
}

// ---------------------------------------------------------------------------
// Reading
// ---------------------------------------------------------------------------

/// A snapshot seen through the store's handles and attributes.
#[derive(Clone, Copy)]
struct Reader<'a> {
    snap: &'a Snapshot,
    h: &'a Handles,
    attrs: &'a Vec<Attr>,
}

/// What a result of datoms holds.
pub open spec fn found(r: Result<Vec<Datom>, StoreError>) -> Result<Seq<DatomView>, Fault> {
    match r {
        Ok(ds) => Ok(datom_views(ds@)),
        Err(e) => Err(e.view()),
    }
}

impl<'a> Reader<'a> {
    spec fn wf(&self) -> bool {
        tables_ok(self.snap@, *self.h)
    }

    spec fn db(&self) -> Db {
        db_of(self.snap@, *self.h, self.attrs@)
    }

    /// Encode a value for lookup without allocating a new giant.
    fn encode_value_readonly(&self, v: &StoreValue) -> (r: Result<Vec<u8>, StoreError>)
        requires
            self.wf(),
        ensures
            match (r, read_key(self.db().ix, v.view())) {
                (Ok(k), Ok(want)) => k@ == want,
                (Err(e), Err(f)) => e.view() == f,
                _ => false,
            },
    {
        let mut inline: Vec<u8> = Vec::new();
        encode_inline(v, &mut inline);
        assert(inline@ =~= encoding(v.view()));
        if inline.len() <= GIANT_THRESHOLD {
            return Ok(inline);
        }
        proof {
            lemma_giant_is_long(v.view());
        }
        let (tag, raw) = match giant_raw_of(v) {
            Some(pair) => pair,
            None => {
                return Err(StoreError::Codec("only strings and bytes can be giant"));
            },
        };
        let digest = sha256(raw);
        let id: u64 = match get(self.snap, self.h, Part::GiantIds, digest.as_slice()) {
            Some(existing) => {
                if existing.len() != 8 {
                    return Err(StoreError::Codec("bad giant id"));
                }
                assert(existing@.subrange(0, 8) =~= existing@);
                read_be(existing, 0, 8)
            },
            None => 0,
        };
        Ok(giant_key_of(tag, raw, id))
    }

    /// Encode an optional value for lookup; nothing for none.
    fn encode_opt(&self, v: Option<&StoreValue>) -> (r: Result<Vec<u8>, StoreError>)
        requires
            self.wf(),
        ensures
            match (r, read_opt_key(self.db().ix, value_view(v))) {
                (Ok(k), Ok(want)) => k@ == want,
                (Err(e), Err(f)) => e.view() == f,
                _ => false,
            },
    {
        match v {
            None => Ok(no_bytes()),
            Some(value) => self.encode_value_readonly(value),
        }
    }

    /// The value at position `from` of `bytes`, giants resolved, and how many bytes it takes.
    fn decode_value(&self, bytes: &[u8], from: usize) -> (r: Result<
        (StoreValue, usize),
        StoreError,
    >)
        requires
            self.wf(),
            from <= bytes.len(),
        ensures
            match (r, resolve(self.db().ix, bytes@.skip(from as int))) {
                (Ok((v, used)), Ok((want, n))) => v.view() == want && used as nat == n && from
                    + used <= bytes.len(),
                (Err(e), Err(f)) => e.view() == f,
                _ => false,
            },
    {
        let part = vstd::slice::slice_subrange(bytes, from, bytes.len());
        proof {
            assert(part@ =~= bytes@.skip(from as int));
            crate::codec::lemma_parse_used(part@);
        }
        match decode(part) {
            Err(m) => Err(StoreError::Codec(m)),
            Ok((Decoded::Value(v), used)) => Ok((v, used)),
            Ok((Decoded::Giant { tag, id }, used)) => {
                match get(self.snap, self.h, Part::Giants, key_u64(id).as_slice()) {
                    None => Err(StoreError::MissingGiant(id)),
                    Some(stored) => {
                        if stored.len() == 0 {
                            return Err(StoreError::Codec("empty giant"));
                        }
                        let raw = slice_of(stored, 1, stored.len());
                        assert(raw@ =~= stored@.skip(1));
                        if tag == TAG_GIANT_STR {
                            match text_from_utf8(raw) {
                                Some(s) => Ok((StoreValue::Str(s), used)),
                                None => Err(StoreError::Codec("giant not utf8")),
                            }
                        } else {
                            Ok((StoreValue::Bytes(raw), used))
                        }
                    },
                }
            },
        }
    }

    /// The name of an attribute id that an index holds.
    fn attr_name(&self, aid: u32) -> (r: Result<String, StoreError>)
        ensures
            match (r, index_name(self.db().attrs, aid as nat)) {
                (Ok(s), Ok(want)) => s@ == want,
                (Err(e), Err(f)) => e.view() == f,
                _ => false,
            },
    {
        match aid_name_in(self.attrs, aid) {
            Some(name) => Ok(name),
            None => Err(StoreError::Codec("unknown aid in index")),
        }
    }

    /// The attribute id at position `at` of a key.
    fn read_aid(&self, k: &[u8], at: usize) -> (aid: u32)
        requires
            at + 4 <= k.len(),
        ensures
            aid as nat == be_value(k@.subrange(at as int, at + 4)),
    {
        assert(crate::bytes::pow256(4) == 0x1_0000_0000) by {
            reveal_with_fuel(crate::bytes::pow256, 5);
        }
        read_be(k, at, 4) as u32
    }

    /// The datom that an index key stands for.
    fn decode_index_entry(&self, index: Index, k: &[u8]) -> (r: Result<Datom, StoreError>)
        requires
            self.wf(),
        ensures
            match (r, entry_datom(self.db(), index, k@)) {
                (Ok(d), Ok(want)) => d.view() == want,
                (Err(e), Err(f)) => e.view() == f,
                _ => false,
            },
    {
        match index {
            Index::Eav => {
                if k.len() < 12 {
                    return Err(StoreError::Codec("short eav key"));
                }
                let e = read_be(k, 0, 8);
                assert(k@.subrange(0, 8) =~= k@.take(8));
                let aid = self.read_aid(k, 8);
                let v = match self.decode_value(k, 12) {
                    Ok((v, _)) => v,
                    Err(f) => {
                        return Err(f);
                    },
                };
                match self.attr_name(aid) {
                    Ok(a) => Ok(Datom { e, a, v }),
                    Err(f) => Err(f),
                }
            },
            Index::Ave => {
                if k.len() < 4 {
                    return Err(StoreError::Codec("short ave key"));
                }
                let aid = self.read_aid(k, 0);
                assert(k@.subrange(0, 4) =~= k@.take(4));
                let (v, used) = match self.decode_value(k, 4) {
                    Ok(pair) => pair,
                    Err(f) => {
                        return Err(f);
                    },
                };
                if k.len() - 4 - used < 8 {
                    return Err(StoreError::Codec("short ave key"));
                }
                let e = read_be(k, 4 + used, 8);
                match self.attr_name(aid) {
                    Ok(a) => Ok(Datom { e, a, v }),
                    Err(f) => Err(f),
                }
            },
            Index::Vae => {
                if k.len() < 20 {
                    return Err(StoreError::Codec("short vae key"));
                }
                let target = read_be(k, 0, 8);
                assert(k@.subrange(0, 8) =~= k@.take(8));
                let aid = self.read_aid(k, 8);
                let e = read_be(k, 12, 8);
                match self.attr_name(aid) {
                    Ok(a) => Ok(Datom { e, a, v: StoreValue::Ref(target) }),
                    Err(f) => Err(f),
                }
            },
        }
    }

    fn index_part(index: Index) -> (p: Part)
        ensures
            is_index(p),
            forall|ix: Indexes| #[trigger] ix.rows(p) == ix.index(index),
    {
        match index {
            Index::Eav => Part::Eav,
            Index::Ave => Part::Ave,
            Index::Vae => Part::Vae,
        }
    }

    /// The datoms of an index whose keys start with `prefix`.
    fn scan_index(&self, index: Index, prefix: &[u8]) -> (r: Result<Vec<Datom>, StoreError>)
        requires
            self.wf(),
        ensures
            found(r) == scan(self.db(), index, prefix@),
    {
        let part = Self::index_part(index);
        let ghost rows = self.db().ix.index(index);
        let ghost want = matching(rows, prefix@);
        let ghost from = rank(rows, prefix@) as int;
        proof {
            lemma_tables_sorted(self.snap@, *self.h);
            assert(sorted_rows(self.db().ix.rows(part), false));
            lemma_matching(rows, false, prefix@);
            lemma_cut(rows, false, front(prefix@));
            assert(self.h.at(part).0 < self.snap@.len());
        }
        let mut out: Vec<Datom> = Vec::new();
        let mut it = match self.snap.range(self.h.get(part), Some(prefix), None) {
            Ok(it) => it,
            Err(_) => {
                return Ok(out);
            },
        };
        let ghost mut i: int = 0;
        proof {
            assert(want.take(0) =~= Seq::empty());
            assert(datom_views(out@) =~= Seq::empty());
            assert(it.remaining() =~= rows.skip(from));
        }
        loop
            invariant
                self.wf(),
                rows == self.db().ix.index(index),
                want == matching(rows, prefix@),
                from == rank(rows, prefix@),
                from + want.len() <= rows.len(),
                want == rows.subrange(from, from + want.len()),
                forall|j: int| #![trigger rows[j]]
                    0 <= j < rows.len() ==> (starts_with(rows[j].0, prefix@) <==> from <= j < from
                        + want.len()),
                it.wf(),
                0 <= i <= want.len(),
                it.remaining() == rows.skip(from + i),
                entry_datoms(self.db(), index, want.take(i)) == Ok::<Seq<DatomView>, Fault>(
                    datom_views(out@),
                ),
            decreases want.len() - i,
        {
            match it.next() {
                None => {
                    proof {
                        assert(i == want.len());
                        assert(want.take(i) =~= want);
                    }
                    return Ok(out);
                },
                Some((k, _)) => {
                    proof {
                        assert(k@ == rows.skip(from + i)[0].0);
                        assert(k@ == rows[from + i].0);
                    }
                    if !has_prefix(k, prefix) {
                        proof {
                            assert(i == want.len());
                            assert(want.take(i) =~= want);
                        }
                        return Ok(out);
                    }
                    proof {
                        assert(i < want.len());
                        assert(want.take(i + 1).drop_last() =~= want.take(i));
                        assert(want.take(i + 1).last() == rows[from + i]);
                        assert(rows.skip(from + i).skip(1) =~= rows.skip(from + i + 1));
                    }
                    match self.decode_index_entry(index, k) {
                        Err(f) => {
                            proof {
                                lemma_first_fault(self.db(), index, want, i + 1);
                            }
                            return Err(f);
                        },
                        Ok(d) => {
                            let ghost before = datom_views(out@);
                            out.push(d);
                            proof {
                                assert(datom_views(out@) =~= before.push(d.view()));
                                i = i + 1;
                            }
                        },
                    }
                },
            }
        }
    }
}

/// A fault among the first rows is the fault of all.
proof fn lemma_first_fault(db: Db, index: Index, rows: Seq<Row>, n: int)
    requires
        0 <= n <= rows.len(),
        entry_datoms(db, index, rows.take(n)) is Err,
    ensures
        entry_datoms(db, index, rows) == entry_datoms(db, index, rows.take(n)),
    decreases rows.len() - n,
{
    if n == rows.len() {
        assert(rows.take(n) =~= rows);
    } else {
        assert(rows.take(n + 1).drop_last() =~= rows.take(n));
        lemma_first_fault(db, index, rows, n + 1);
    }
}

/// What an optional value holds.
pub open spec fn value_view(v: Option<&StoreValue>) -> Option<Datum> {
    match v {
        Some(v) => Some(v.view()),
        None => None,
    }
}

// ---------------------------------------------------------------------------
// Writing
// ---------------------------------------------------------------------------

/// All encoded values currently asserted for an entity and attribute.
fn entity_attr_values(snap: &Snapshot, h: &Handles, e: u64, aid: u32) -> (r: Vec<Vec<u8>>)
    requires
        tables_ok(snap@, *h),
    ensures
        r@.len() == entity_values(indexes(snap@, *h).eav, e, aid).len(),
        forall|i: int| 0 <= i < r@.len() ==> (#[trigger] r@[i])@ == entity_values(
            indexes(snap@, *h).eav,
            e,
            aid,
        )[i],
{
    let prefix = eav_key_of(e, aid, no_bytes().as_slice());
    let ghost rows = indexes(snap@, *h).eav;
    let ghost want = matching(rows, prefix@);
    let ghost from = rank(rows, prefix@) as int;
    proof {
        assert(prefix@ =~= be_bytes(e as nat, 8) + be_bytes(aid as nat, 4));
        crate::bytes::lemma_be_len(e as nat, 8);
        crate::bytes::lemma_be_len(aid as nat, 4);
        lemma_tables_sorted(snap@, *h);
        assert(sorted_rows(indexes(snap@, *h).rows(Part::Eav), false));
        lemma_matching(rows, false, prefix@);
        lemma_cut(rows, false, front(prefix@));
        assert(h.at(Part::Eav).0 < snap@.len());
    }
    let mut out: Vec<Vec<u8>> = Vec::new();
    let mut it = match snap.range(h.eav, Some(prefix.as_slice()), None) {
        Ok(it) => it,
        Err(_) => {
            return out;
        },
    };
    let ghost mut i: int = 0;
    proof {
        assert(it.remaining() =~= rows.skip(from));
    }
    loop
        invariant
            prefix@ == be_bytes(e as nat, 8) + be_bytes(aid as nat, 4),
            prefix@.len() == 12,
            rows == indexes(snap@, *h).eav,
            want == matching(rows, prefix@),
            from == rank(rows, prefix@),
            from + want.len() <= rows.len(),
            want == rows.subrange(from, from + want.len()),
            forall|j: int| #![trigger rows[j]]
                0 <= j < rows.len() ==> (starts_with(rows[j].0, prefix@) <==> from <= j < from
                    + want.len()),
            it.wf(),
            0 <= i <= want.len(),
            it.remaining() == rows.skip(from + i),
            out@.len() == i,
            forall|j: int| 0 <= j < i ==> (#[trigger] out@[j])@ == want[j].0.skip(12),
        decreases want.len() - i,
    {
        match it.next() {
            None => {
                return out;
            },
            Some((k, _)) => {
                proof {
                    assert(k@ == rows.skip(from + i)[0].0);
                    assert(k@ == rows[from + i].0);
                }
                if !has_prefix(k, prefix.as_slice()) {
                    return out;
                }
                assert(rows.skip(from + i).skip(1) =~= rows.skip(from + i + 1));
                let v = slice_of(k, 12, k.len());
                assert(v@ =~= k@.skip(12));
                out.push(v);
                proof {
                    i = i + 1;
                }
            },
        }
    }
}

fn insert_datom_in(
    snap: &mut Snapshot,
    h: &Handles,
    e: u64,
    aid: u32,
    venc: &[u8],
    v: &StoreValue,
)
    requires
        tables_ok(old(snap)@, *h),
    ensures
        tables_ok(final(snap)@, *h),
        indexes(final(snap)@, *h) == insert_datom(
            indexes(old(snap)@, *h),
            e,
            aid,
            venc@,
            v.view(),
        ),
{
    put(snap, h, Part::Eav, eav_key_of(e, aid, venc).as_slice(), no_bytes().as_slice());
    put(snap, h, Part::Ave, ave_key_of(aid, venc, e).as_slice(), no_bytes().as_slice());
    if let StoreValue::Ref(target) = v {
        put(snap, h, Part::Vae, vae_key_of(*target, aid, e).as_slice(), no_bytes().as_slice());
    }
}

/// Drop a datom that is known by its encoded value; refs are recognized by their tag.
fn delete_encoded_in(snap: &mut Snapshot, h: &Handles, e: u64, aid: u32, venc: &[u8])
    requires
        tables_ok(old(snap)@, *h),
    ensures
        tables_ok(final(snap)@, *h),
        indexes(final(snap)@, *h) == delete_encoded(indexes(old(snap)@, *h), e, aid, venc@),
{
    del(snap, h, Part::Eav, eav_key_of(e, aid, venc).as_slice());
    del(snap, h, Part::Ave, ave_key_of(aid, venc, e).as_slice());
    if venc.len() > 0 && venc[0] == TAG_REF {
        match decode(venc) {
            Ok((Decoded::Value(StoreValue::Ref(target)), _)) => {
                del(snap, h, Part::Vae, vae_key_of(target, aid, e).as_slice());
            },
            _ => {},
        }
    }
}

fn delete_datom_in(
    snap: &mut Snapshot,
    h: &Handles,
    e: u64,
    aid: u32,
    venc: &[u8],
    v: &StoreValue,
)
    requires
        tables_ok(old(snap)@, *h),
    ensures
        tables_ok(final(snap)@, *h),
        indexes(final(snap)@, *h) == delete_datom(
            indexes(old(snap)@, *h),
            e,
            aid,
            venc@,
            v.view(),
        ),
{
    del(snap, h, Part::Eav, eav_key_of(e, aid, venc).as_slice());
    del(snap, h, Part::Ave, ave_key_of(aid, venc, e).as_slice());
    if let StoreValue::Ref(target) = v {
        del(snap, h, Part::Vae, vae_key_of(*target, aid, e).as_slice());
    }
}

/// Drop every datom of one entity and attribute.
fn clear_entity_attr(snap: &mut Snapshot, h: &Handles, e: u64, aid: u32)
    requires
        tables_ok(old(snap)@, *h),
    ensures
        tables_ok(final(snap)@, *h),
        indexes(final(snap)@, *h) == delete_all(
            indexes(old(snap)@, *h),
            e,
            aid,
            entity_values(indexes(old(snap)@, *h).eav, e, aid),
        ),
{
    let values = entity_attr_values(snap, h, e, aid);
    let ghost start = indexes(snap@, *h);
    let ghost want = entity_values(start.eav, e, aid);
    let mut i: usize = 0;
    while i < values.len()
        invariant
            i <= values.len(),
            values@.len() == want.len(),
            forall|j: int| 0 <= j < values@.len() ==> (#[trigger] values@[j])@ == want[j],
            tables_ok(snap@, *h),
            indexes(snap@, *h) == delete_all(start, e, aid, want.take(i as int)),
        decreases values.len() - i,
    {
        delete_encoded_in(snap, h, e, aid, values[i].as_slice());
        assert(want.take(i + 1).drop_last() =~= want.take(i as int));
        assert(want.take(i + 1).last() == want[i as int]);
        i = i + 1;
    }
    assert(want.take(want.len() as int) =~= want);
}

/// Deleting datoms leaves the meta table alone.
proof fn lemma_delete_all_meta(ix: Indexes, e: u64, aid: u32, values: Seq<Seq<u8>>)
    ensures
        delete_all(ix, e, aid, values).meta == ix.meta,
    decreases values.len(),
{
    if values.len() > 0 {
        lemma_delete_all_meta(ix, e, aid, values.drop_last());
    }
}

/// Storing a value's key raises the giant counter at most once and the attribute counter never.
proof fn lemma_write_key_room(db: Db, v: Datum, n: nat)
    requires
        sorted_rows(db.ix.meta, false),
        room(db.ix.meta, n),
        counter(db.ix.meta, meta_next_giant()) matches Ok(c) ==> c + n + 1 <= u64::MAX,
    ensures
        write_key(db, v) matches Ok((next, _)) ==> room(next.ix.meta, n) && lookup(
            next.ix.meta,
            meta_max_eid(),
        ) == lookup(db.ix.meta, meta_max_eid()),
{
    lemma_meta_keys();
    if let Ok((next, m)) = bump(db, meta_next_giant()) {
        law_lookup_after_put(db.ix.meta, meta_next_giant(), be_bytes(m, 8), meta_next_aid());
        law_lookup_after_put(db.ix.meta, meta_next_giant(), be_bytes(m, 8), meta_next_giant());
        law_lookup_after_put(db.ix.meta, meta_next_giant(), be_bytes(m, 8), meta_max_eid());
        crate::bytes::lemma_pow256_8();
        crate::bytes::lemma_be_len(m, 8);
        crate::bytes::lemma_be_round_trip(m, 8);
    }
}

/// Apply one operation. What it did to the tables and attributes is to be kept only on success.
fn apply_op(snap: &mut Snapshot, h: &Handles, attrs: &mut Vec<Attr>, op: &Op, Ghost(n): Ghost<
    nat,
>) -> (r: Result<(), StoreError>)
    requires
        tables_ok(old(snap)@, *h),
        room(indexes(old(snap)@, *h).meta, n + 1),
    ensures
        tables_ok(final(snap)@, *h),
        unique_names(attr_recs(old(attrs)@)) ==> unique_names(attr_recs(final(attrs)@)),
        match (r, apply(db_of(old(snap)@, *h, old(attrs)@), op.view())) {
            (Ok(()), Ok(db)) => db == db_of(final(snap)@, *h, final(attrs)@) && room(db.ix.meta, n)
                && lookup(db.ix.meta, meta_max_eid()) == lookup(
                indexes(old(snap)@, *h).meta,
                meta_max_eid(),
            ),
            (Err(e), Err(f)) => e.view() == f,
            _ => false,
        },
{
    let ghost start = db_of(snap@, *h, attrs@);
    proof {
        reveal(apply);
        lemma_tables_sorted(snap@, *h);
        match op.view() {
            OpView::Add { a, .. } => lemma_intern_room(start, a, None, n),
            OpView::Retract { a, .. } => lemma_intern_room(start, a, None, n),
        }
    }
    match op {
        Op::Add { e, a, v } => {
            let (aid, props) = match intern_attr(snap, h, attrs, a.as_str(), None) {
                Ok(pair) => pair,
                Err(f) => {
                    return Err(f);
                },
            };
            let ghost named = db_of(snap@, *h, attrs@);
            if !props.cardinality_many {
                clear_entity_attr(snap, h, *e, aid);
                proof {
                    lemma_delete_all_meta(
                        named.ix,
                        *e,
                        aid,
                        entity_values(named.ix.eav, *e, aid),
                    );
                }
            }
            let ghost cleared = db_of(snap@, *h, attrs@);
            proof {
                lemma_tables_sorted(snap@, *h);
                assert(sorted_rows(indexes(snap@, *h).rows(Part::Meta), false));
                lemma_write_key_room(cleared, v.view(), n);
            }
            let venc = match encode_value_for_key(snap, h, v, Ghost(attr_recs(attrs@))) {
                Ok(k) => k,
                Err(f) => {
                    return Err(f);
                },
            };
            insert_datom_in(snap, h, *e, aid, venc.as_slice(), v);
            Ok(())
        },
        Op::Retract { e, a, v } => {
            let (aid, _) = match intern_attr(snap, h, attrs, a.as_str(), None) {
                Ok(pair) => pair,
                Err(f) => {
                    return Err(f);
                },
            };
            let ghost named = db_of(snap@, *h, attrs@);
            proof {
                lemma_tables_sorted(snap@, *h);
                assert(sorted_rows(indexes(snap@, *h).rows(Part::Meta), false));
                lemma_write_key_room(named, v.view(), n);
            }
            let venc = match encode_value_for_key(snap, h, v, Ghost(attr_recs(attrs@))) {
                Ok(k) => k,
                Err(f) => {
                    return Err(f);
                },
            };
            delete_datom_in(snap, h, *e, aid, venc.as_slice(), v);
            Ok(())
        },
    }
}

/// The largest entity id ever asserted, as the meta table has it.
fn stored_max_eid_in(snap: &Snapshot, h: &Handles) -> (r: u64)
    requires
        tables_ok(snap@, *h),
    ensures
        r == stored_max_eid(indexes(snap@, *h).meta),
{
    match get(snap, h, Part::Meta, "max-eid".as_bytes()) {
        None => 0,
        Some(b) => if b.len() == 8 {
            assert(b@.subrange(0, 8) =~= b@);
            read_be(b, 0, 8)
        } else {
            0
        },
    }
}

/// A fault of the first operations is the fault of all.
proof fn lemma_first_op_fault(db: Db, ops: Seq<OpView>, n: int)
    requires
        0 <= n <= ops.len(),
        apply_all(db, ops.take(n)) is Err,
    ensures
        apply_all(db, ops) == apply_all(db, ops.take(n)),
    decreases ops.len() - n,
{
    if n == ops.len() {
        assert(ops.take(n) =~= ops);
    } else {
        assert(ops.take(n + 1).drop_last() =~= ops.take(n));
        lemma_first_op_fault(db, ops, n + 1);
    }
}

/// Apply operations one after the other; gives the largest entity id asserted so far.
fn apply_ops(snap: &mut Snapshot, h: &Handles, attrs: &mut Vec<Attr>, ops: &[Op]) -> (r: Result<
    u64,
    StoreError,
>)
    requires
        tables_ok(old(snap)@, *h),
        unique_names(attr_recs(old(attrs)@)),
        room(indexes(old(snap)@, *h).meta, ops@.len()),
    ensures
        tables_ok(final(snap)@, *h),
        unique_names(attr_recs(final(attrs)@)),
        match (r, apply_all(db_of(old(snap)@, *h, old(attrs)@), op_views(ops@))) {
            (Ok(max), Ok(db)) => db == db_of(final(snap)@, *h, final(attrs)@) && max == max_added(
                stored_max_eid(indexes(old(snap)@, *h).meta),
                op_views(ops@),
            ),
            (Err(e), Err(f)) => e.view() == f,
            _ => false,
        },
{
    let ghost start = db_of(snap@, *h, attrs@);
    let ghost views = op_views(ops@);
    let mut max_eid: u64 = stored_max_eid_in(snap, h);
    let mut i: usize = 0;
    assert(views.take(0) =~= Seq::empty());
    while i < ops.len()
        invariant
            i <= ops.len(),
            start == db_of(old(snap)@, *h, old(attrs)@),
            views == op_views(ops@),
            tables_ok(snap@, *h),
            unique_names(attr_recs(attrs@)),
            room(indexes(snap@, *h).meta, (ops@.len() - i) as nat),
            apply_all(start, views.take(i as int)) == Ok::<Db, Fault>(db_of(snap@, *h, attrs@)),
            max_eid == max_added(stored_max_eid(start.ix.meta), views.take(i as int)),
        decreases ops.len() - i,
    {
        proof {
            assert(views.take(i + 1).drop_last() =~= views.take(i as int));
            assert(views.take(i + 1).last() == views[i as int]);
        }
        match apply_op(snap, h, attrs, &ops[i], Ghost((ops@.len() - i - 1) as nat)) {
            Ok(()) => {},
            Err(f) => {
                proof {
                    lemma_first_op_fault(start, views, i + 1);
                }
                return Err(f);
            },
        }
        if let Op::Add { e, .. } = &ops[i] {
            if *e > max_eid {
                max_eid = *e;
            }
        }
        i = i + 1;
    }
    assert(views.take(views.len() as int) =~= views);
    Ok(max_eid)
}

// ---------------------------------------------------------------------------
// The store
// ---------------------------------------------------------------------------

/// The triple store.
pub struct Store {
    env: Env,
    h: Handles,
    attrs: Vec<Attr>,
}

/// The names and flags of the seven tables.
pub open spec fn table_plan() -> Seq<(Seq<char>, u32)> {
    seq![
        ("eav"@, 0x40080),
        ("ave"@, 0x40180),
        ("vae"@, 0x40080),
        ("schema"@, 0x40000),
        ("meta"@, 0x40000),
        ("giants"@, 0x40000),
        ("giant-ids"@, 0x40000),
    ]
}

/// Open tables one after the other; gives the tables and the handles.
pub open spec fn open_all(tables: Seq<TableView>, settings: EnvOptions, plan: Seq<(Seq<char>, u32)>)
    -> Result<(Seq<TableView>, Seq<Dbi>), Error>
    decreases plan.len(),
{
    if plan.len() == 0 {
        Ok((tables, Seq::empty()))
    } else {
        match open_all(tables, settings, plan.drop_last()) {
            Err(e) => Err(e),
            Ok((next, dbis)) => match opening(next, settings, plan.last().0, plan.last().1) {
                Err(e) => Err(e),
                Ok((last, dbi)) => Ok((last, dbis.push(dbi))),
            },
        }
    }
}

/// The handles in the order of the plan.
pub open spec fn handles(dbis: Seq<Dbi>) -> Handles {
    Handles {
        eav: dbis[0],
        ave: dbis[1],
        vae: dbis[2],
        schema: dbis[3],
        meta: dbis[4],
        giants: dbis[5],
        giant_ids: dbis[6],
    }
}

/// What the store's environment is opened with.
pub open spec fn store_settings(flags: EnvFlags) -> EnvOptions {
    EnvOptions {
        map_size: 0x4000_0000,
        max_dbs: 16,
        flags: EnvFlags(flags.0 | crate::lmdb::MDB_NOTLS),
    }
}

/// The state of a store opened over an image of its tables, or why it cannot open.
pub open spec fn opened_store(image: Seq<Table>, flags: EnvFlags) -> Result<Db, Fault> {
    if image.len() > u32::MAX {
        Err(Fault::Lmdb(Error(crate::lmdb::MDB_DBS_FULL)))
    } else {
        match open_all(loaded(image), store_settings(flags), table_plan()) {
            Err(e) => Err(Fault::Lmdb(e)),
            Ok((tables, dbis)) => {
                let ix = indexes(tables, handles(dbis));
                match read_schema(ix.schema) {
                    Err(f) => Err(f),
                    Ok(attrs) => Ok(Db { ix, attrs }),
                }
            },
        }
    }
}

/// Every opened handle names a table with the planned name and kind of rows.
proof fn lemma_open_all(
    tables: Seq<TableView>,
    settings: EnvOptions,
    plan: Seq<(Seq<char>, u32)>,
)
    requires
        tables_wf(tables),
    ensures
        open_all(tables, settings, plan) matches Ok((next, dbis)) ==> tables_wf(next) && dbis.len()
            == plan.len() && (plan.len() > 0 ==> settings.flags.0 & crate::lmdb::MDB_RDONLY == 0)
            && forall|i: int| 0 <= i < plan.len() ==> (#[trigger] dbis[i]).0 < next.len()
            && next[dbis[i].0 as int].name == plan[i].0 && table_named(next, plan[i].0) == Some(
            dbis[i].0 as nat,
        ) && fits(next[dbis[i].0 as int], plan[i].1),
    decreases plan.len(),
{
    if plan.len() > 0 {
        let init = plan.drop_last();
        lemma_open_all(tables, settings, init);
        if let Ok((mid, before)) = open_all(tables, settings, init) {
            crate::lmdb::lemma_table_named(mid, plan.last().0);
            if let Ok((next, dbi)) = opening(mid, settings, plan.last().0, plan.last().1) {
                let dbis = before.push(dbi);
                if next != mid {
                    assert(next.drop_last() =~= mid);
                }
                assert forall|i: int| 0 <= i < plan.len() implies (#[trigger] dbis[i]).0
                    < next.len() && next[dbis[i].0 as int].name == plan[i].0 && table_named(
                    next,
                    plan[i].0,
                ) == Some(dbis[i].0 as nat) && fits(next[dbis[i].0 as int], plan[i].1) by {
                    if i < init.len() {
                        assert(dbis[i] == before[i]);
                        assert(init[i] == plan[i]);
                    } else {
                        assert(plan[i] == plan.last());
                    }
                }
                if next != mid {
                    let t = TableView {
                        name: plan.last().0,
                        flags: plan.last().1,
                        rows: Seq::empty(),
                    };
                    assert(next == mid.push(t));
                    assert(t.wf());
                }
            }
        }
    }
}

/// The planned names differ.
proof fn lemma_plan_names()
    ensures
        forall|i: int, j: int| #![trigger table_plan()[i], table_plan()[j]]
            0 <= i < j < 7 ==> table_plan()[i].0 != table_plan()[j].0,
{
    reveal_strlit("eav");
    reveal_strlit("ave");
    reveal_strlit("vae");
    reveal_strlit("schema");
    reveal_strlit("meta");
    reveal_strlit("giants");
    reveal_strlit("giant-ids");
    let p = table_plan();
    assert(p[0].0 == "eav"@ && p[1].0 == "ave"@ && p[2].0 == "vae"@ && p[3].0 == "schema"@
        && p[4].0 == "meta"@ && p[5].0 == "giants"@ && p[6].0 == "giant-ids"@);
    assert("eav"@[0] == 'e' && "ave"@[0] == 'a' && "vae"@[0] == 'v');
    assert("schema"@[0] == 's' && "giants"@[0] == 'g');
    assert("eav"@.len() == 3 && "ave"@.len() == 3 && "vae"@.len() == 3 && "schema"@.len() == 6);
    assert("meta"@.len() == 4 && "giants"@.len() == 6 && "giant-ids"@.len() == 9);
    assert forall|i: int, j: int| #![trigger p[i], p[j]] 0 <= i < j < 7 implies p[i].0
        != p[j].0 by {
        assert(i == 0 || i == 1 || i == 2 || i == 3 || i == 4 || i == 5);
        assert(j == 1 || j == 2 || j == 3 || j == 4 || j == 5 || j == 6);
    }
}

/// The handles that a store gets fit its tables.
proof fn lemma_handles_ok(tables: Seq<TableView>, settings: EnvOptions)
    requires
        tables_wf(tables),
    ensures
        open_all(tables, settings, table_plan()) matches Ok((next, dbis)) ==> tables_ok(
            next,
            handles(dbis),
        ),
{
    lemma_open_all(tables, settings, table_plan());
    lemma_plan_names();
    if let Ok((next, dbis)) = open_all(tables, settings, table_plan()) {
        let h = handles(dbis);
        let plan = table_plan();
        assert(0x40080u32 & 0x04 == 0 && 0x40180u32 & 0x04 == 0 && 0x40000u32 & 0x04 == 0
            && 0x40080u32 & 0x80 != 0 && 0x40180u32 & 0x80 != 0) by (bit_vector);
        assert forall|p: Part| (#[trigger] h.at(p)).0 < next.len() && !next[h.at(
            p,
        ).0 as int].dup() && (is_index(p) ==> next[h.at(p).0 as int].counted()) by {
            let i = part_slot(p);
            assert(h.at(p) == dbis[i]);
            assert(fits(next[dbis[i].0 as int], plan[i].1));
        }
        assert forall|p: Part| #![trigger h.at(p)] table_named(next, part_name(p)) == Some(
            h.at(p).0 as nat,
        ) && fits(next[h.at(p).0 as int], plan[part_slot(p)].1) by {
            assert(h.at(p) == dbis[part_slot(p)]);
        }
        assert forall|p: Part, q: Part| p != q implies (#[trigger] h.at(p)).0 != (
        #[trigger] h.at(q)).0 by {
            let i = part_slot(p);
            let j = part_slot(q);
            assert(h.at(p) == dbis[i] && h.at(q) == dbis[j]);
            assert(i != j);
            assert(plan[i].0 != plan[j].0);
        }
    }
}

/// The attributes that the schema rows declare.
fn load_schema(snap: &Snapshot, h: &Handles) -> (r: Result<Vec<Attr>, StoreError>)
    requires
        tables_ok(snap@, *h),
    ensures
        match (r, read_schema(indexes(snap@, *h).schema)) {
            (Ok(attrs), Ok(want)) => attr_recs(attrs@) == want && unique_names(want),
            (Err(e), Err(f)) => e.view() == f,
            _ => false,
        },
{
    let ghost rows = indexes(snap@, *h).schema;
    proof {
        assert(h.at(Part::Schema).0 < snap@.len());
    }
    let mut attrs: Vec<Attr> = Vec::new();
    let mut it = match snap.range(h.schema, None, None) {
        Ok(it) => it,
        Err(e) => {
            return Err(StoreError::Lmdb(e));
        },
    };
    let ghost mut i: int = 0;
    proof {
        assert(attr_recs(attrs@) =~= Seq::empty());
        assert(rows.take(0) =~= Seq::empty());
        assert(it.remaining() =~= rows.skip(0));
        assert(crate::bytes::pow256(4) == 0x1_0000_0000) by {
            reveal_with_fuel(crate::bytes::pow256, 5);
        }
    }
    loop
        invariant
            rows == indexes(snap@, *h).schema,
            crate::bytes::pow256(4) == 0x1_0000_0000,
            0 <= i <= rows.len(),
            it.wf(),
            it.remaining() == rows.skip(i),
            unique_names(attr_recs(attrs@)),
            read_schema(rows.take(i)) == Ok::<Seq<AttrRec>, Fault>(attr_recs(attrs@)),
        decreases rows.len() - i,
    {
        match it.next() {
            None => {
                assert(rows.take(i) =~= rows);
                return Ok(attrs);
            },
            Some((k, v)) => {
                proof {
                    assert((k@, v@) == rows.skip(i)[0]);
                    assert((k@, v@) == rows[i]);
                    assert(rows.take(i + 1).drop_last() =~= rows.take(i));
                    assert(rows.take(i + 1).last() == rows[i]);
                    assert(rows.skip(i).skip(1) =~= rows.skip(i + 1));
                    if schema_attr(rows[i]) is Err {
                        lemma_schema_fault(rows, i + 1);
                    }
                }
                let name = match text_from_utf8(bytes_copy(k)) {
                    Some(name) => name,
                    None => {
                        return Err(StoreError::Codec("schema attr not utf8"));
                    },
                };
                if v.len() < 5 {
                    return Err(StoreError::Codec("short schema entry"));
                }
                assert(v@.subrange(0, 4) =~= v@.take(4));
                let aid: u32 = read_be(v, 0, 4) as u32;
                let flags: u8 = v[4];
                let props = AttrProps {
                    cardinality_many: flags % 2 == 1,
                    ref_type: (flags / 2) % 2 == 1,
                };
                proof {
                    lemma_set_attr_unique(attr_recs(attrs@), AttrRec { name: name@, aid, props });
                    i = i + 1;
                }
                let next = set_attr_in(&attrs, name.as_str(), aid, props);
                attrs = next;
            },
        }
    }
}

/// A fault among the first schema rows is the fault of all.
proof fn lemma_schema_fault(rows: Seq<Row>, n: int)
    requires
        0 <= n <= rows.len(),
        read_schema(rows.take(n)) is Err,
    ensures
        read_schema(rows) == read_schema(rows.take(n)),
    decreases rows.len() - n,
{
    if n == rows.len() {
        assert(rows.take(n) =~= rows);
    } else {
        assert(rows.take(n + 1).drop_last() =~= rows.take(n));
        lemma_schema_fault(rows, n + 1);
    }
}

/// A partial-datom range bound. Components must be contiguous from the index's most-significant
/// position; a missing tail means +/- infinity. `closed` marks the bound inclusive (the default
/// shape).
pub struct Bound<'a> {
    pub e: Option<u64>,
    pub a: Option<&'a str>,
    pub v: Option<&'a StoreValue>,
    pub closed: bool,
}

/// What an optional text holds.
pub open spec fn text_view(a: Option<&str>) -> Option<Seq<char>> {
    match a {
        Some(s) => Some(s@),
        None => None,
    }
}

impl<'a> Bound<'a> {
    /// What the bound holds.
    pub open spec fn view(&self) -> BoundView {
        BoundView {
            e: self.e,
            a: text_view(self.a),
            v: value_view(self.v),
            closed: self.closed,
        }
    }
}

impl<'a> Default for Bound<'a> {
    fn default() -> (r: Self)
        ensures
            r.e is None,
            r.a is None,
            r.v is None,
            r.closed,
    {
        Bound { e: None, a: None, v: None, closed: true }
    }
}

impl Store {
    /// The store's state.
    pub closed spec fn db(&self) -> Db {
        db_of(self.env@, self.h, self.attrs@)
    }

    /// The environment takes writes, the handles fit its tables and no attribute is declared
    /// twice.
    pub closed spec fn wf(&self) -> bool {
        &&& self.env.wf()
        &&& !self.env.read_only()
        &&& tables_ok(self.env@, self.h)
        &&& unique_names(attr_recs(self.attrs@))
    }

    /// A well-formed store's tables are sorted.
    pub proof fn lemma_wf(&self)
        requires
            self.wf(),
        ensures
            ix_sorted(self.db().ix),
            unique_names(self.db().attrs),
    {
        lemma_tables_sorted(self.env@, self.h);
    }

    /// Open a store over the tables that were kept for it; none for a new store.
    ///
    /// # Errors
    ///
    /// Returns the underlying storage error.
    pub fn open(image: &Vec<Table>) -> (r: Result<Store, StoreError>)
        ensures
            match (r, opened_store(image@, EnvFlags(crate::lmdb::MDB_NOTLS))) {
                (Ok(store), Ok(db)) => store.wf() && store.db() == db,
                (Err(e), Err(f)) => e.view() == f,
                _ => false,
            },
            image@.len() == 0 ==> (r matches Ok(store) && store.db() == reached(Seq::empty())
                && sound(store.db())),
    {
        proof {
            if image@.len() == 0 {
                assert(image@ =~= Seq::empty());
                assert((0x200000u32 | 0x200000) & 0x20000 == 0) by (bit_vector);
                law_new_store(EnvFlags(crate::lmdb::MDB_NOTLS));
                law_empty_is_sound();
            }
        }
        Store::open_with_flags(image, EnvFlags::no_tls())
    }

    /// Open with extra environment flags.
    ///
    /// # Errors
    ///
    /// Returns the underlying storage error.
    pub fn open_with_flags(image: &Vec<Table>, flags: EnvFlags) -> (r: Result<Store, StoreError>)
        ensures
            match (r, opened_store(image@, flags)) {
                (Ok(store), Ok(db)) => store.wf() && store.db() == db,
                (Err(e), Err(f)) => e.view() == f,
                _ => false,
            },
    {
        let options = Env::options().map_size(0x4000_0000).max_dbs(16).flags(
            flags | EnvFlags::no_tls(),
        );
        let mut env = match options.open(image) {
            Ok(env) => env,
            Err(e) => {
                return Err(StoreError::Lmdb(e));
            },
        };
        let ghost start = env@;
        let ghost settings = store_settings(flags);
        let ghost plan = table_plan();
        proof {
            assert(0x40000u32 | 0x80 == 0x40080 && (0x40000u32 | 0x80) | 0x100 == 0x40180)
                by (bit_vector);
        }
        let create = DbiFlags::create();
        let index = DbiFlags::create() | DbiFlags::counted();
        let packed = DbiFlags::create() | DbiFlags::counted() | DbiFlags::prefix_compression();
        let names: Vec<(&str, DbiFlags)> = vec![
            ("eav", index),
            ("ave", packed),
            ("vae", index),
            ("schema", create),
            ("meta", create),
            ("giants", create),
            ("giant-ids", create),
        ];
        assert(forall|j: int| 0 <= j < 7 ==> (#[trigger] names@[j]).0@ == plan[j].0 && names@[j].1.0
            == plan[j].1);
        let mut dbis: Vec<Dbi> = Vec::new();
        let mut i: usize = 0;
        assert(plan.take(0) =~= Seq::empty());
        while i < names.len()
            invariant
                i <= names.len(),
                names@.len() == 7,
                plan == table_plan(),
                forall|j: int| 0 <= j < 7 ==> (#[trigger] names@[j]).0@ == plan[j].0
                    && names@[j].1.0 == plan[j].1,
                image@.len() <= u32::MAX,
                start == loaded(image@),
                settings == store_settings(flags),
                env.wf(),
                env.settings() == settings,
                open_all(start, settings, plan.take(i as int)) == Ok::<
                    (Seq<TableView>, Seq<Dbi>),
                    Error,
                >((env@, dbis@)),
            decreases names.len() - i,
        {
            proof {
                assert(plan.take(i + 1).drop_last() =~= plan.take(i as int));
                assert(plan.take(i + 1).last() == plan[i as int]);
            }
            match env.open_dbi(names[i].0, names[i].1) {
                Ok(dbi) => {
                    dbis.push(dbi);
                },
                Err(e) => {
                    proof {
                        lemma_open_fault(start, settings, plan, i + 1);
                    }
                    return Err(StoreError::Lmdb(e));
                },
            }
            i = i + 1;
        }
        proof {
            assert(plan.take(7) =~= plan);
            lemma_handles_ok(start, settings);
            lemma_open_all(start, settings, plan);
        }
        let h = Handles {
            eav: dbis[0],
            ave: dbis[1],
            vae: dbis[2],
            schema: dbis[3],
            meta: dbis[4],
            giants: dbis[5],
            giant_ids: dbis[6],
        };
        let ro = match env.read_txn() {
            Ok(ro) => ro,
            Err(e) => {
                return Err(StoreError::Lmdb(e));
            },
        };
        match load_schema(ro.snapshot(), &h) {
            Ok(attrs) => Ok(Store { env, h, attrs }),
            Err(f) => Err(f),
        }
    }

    /// The store's tables as plain values, for keeping them elsewhere.
    pub fn image(&self) -> (r: Vec<Table>)
        requires
            self.wf(),
        ensures
            self.has_image(r@),
    {
        self.env.image()
    }

    /// `image` holds the tables of the store.
    pub closed spec fn has_image(&self, image: Seq<Table>) -> bool {
        &&& image.len() == self.env@.len()
        &&& forall|i: int| 0 <= i < image.len() ==> (#[trigger] image[i])@ == self.env@[i]
    }

    /// Declare or update an attribute's properties before use.
    ///
    /// # Errors
    ///
    /// Returns the underlying storage error.
    pub fn set_attr(&mut self, name: &str, props: AttrProps) -> (r: Result<(), StoreError>)
        requires
            old(self).wf(),
            room(old(self).db().ix.meta, 1),
        ensures
            final(self).wf(),
            match (r, intern(old(self).db(), name@, Some(props))) {
                (Ok(()), Ok((db, _, _))) => final(self).db() == db,
                (Err(e), Err(f)) => e.view() == f && final(self).db() == old(self).db(),
                _ => false,
            },
            final(self).db() == stepped(old(self).db(), Step::Declare { name: name@, props }),
            sound(old(self).db()) && aid_room(old(self).db().ix) ==> r is Ok && sound(
                final(self).db(),
            ),
    {
        proof {
            if sound(self.db()) && aid_room(self.db().ix) {
                law_intern(self.db(), name@, Some(props));
            }
        }
        let h = self.h;
        let mut attrs = copy_attrs(&self.attrs);
        let txn = match self.env.write_txn() {
            Ok(txn) => txn,
            Err(e) => {
                return Err(StoreError::Lmdb(e));
            },
        };
        let crate::lmdb::RwTxn { env, mut work } = txn;
        match intern_attr(&mut work, &h, &mut attrs, name, Some(props)) {
            Err(f) => Err(f),
            Ok(_) => {
                let _ = (crate::lmdb::RwTxn { env, work }).commit();
                self.attrs = attrs;
                Ok(())
            },
        }
    }

    /// Whether the counters of ids can rise by `n` more.
    #[must_use]
    pub fn has_room(&self, n: u64) -> (r: bool)
        requires
            self.wf(),
        ensures
            r == room(self.db().ix.meta, n as nat),
    {
        match self.env.read_txn() {
            Ok(ro) => has_counter_room(ro.snapshot(), &self.h, "next-aid".as_bytes(), n)
                && has_counter_room(ro.snapshot(), &self.h, "next-giant".as_bytes(), n),
            Err(_) => false,
        }
    }

    /// The properties an attribute currently carries.
    #[must_use]
    pub fn attr_props(&self, name: &str) -> (r: Option<AttrProps>)
        requires
            self.wf(),
        ensures
            r == (match find_attr(self.db().attrs, name@) {
                Some((_, props)) => Some(props),
                None => None,
            }),
    {
        match find_attr_in(&self.attrs, name) {
            Some((_, props)) => Some(props),
            None => None,
        }
    }

    /// Apply `ops` atomically. Cardinality-one adds replace the previous value; retracts of
    /// absent datoms are ignored.
    ///
    /// # Errors
    ///
    /// Returns the underlying storage or codec error; nothing is applied on failure.
    pub fn transact(&mut self, ops: &[Op]) -> (r: Result<(), StoreError>)
        requires
            old(self).wf(),
            room(old(self).db().ix.meta, ops@.len()),
        ensures
            final(self).wf(),
            match (r, transacted(old(self).db(), op_views(ops@))) {
                (Ok(()), Ok(db)) => final(self).db() == db,
                (Err(e), Err(f)) => e.view() == f && final(self).db() == old(self).db(),
                _ => false,
            },
            final(self).db() == stepped(
                old(self).db(),
                Step::Transact { ops: op_views(ops@) },
            ),
            sound(old(self).db()) && admissible(old(self).db(), op_views(ops@)) ==> sound(
                final(self).db(),
            ) && (r is Ok <==> goes_through(op_views(ops@))),
    {
        proof {
            if sound(self.db()) && admissible(self.db(), op_views(ops@)) {
                law_transact(self.db(), op_views(ops@));
            }
        }
        let h = self.h;
        let mut attrs = copy_attrs(&self.attrs);
        let txn = match self.env.write_txn() {
            Ok(txn) => txn,
            Err(e) => {
                return Err(StoreError::Lmdb(e));
            },
        };
        let crate::lmdb::RwTxn { env, mut work } = txn;
        let max_eid: u64 = match apply_ops(&mut work, &h, &mut attrs, ops) {
            Ok(max_eid) => max_eid,
            Err(f) => {
                return Err(f);
            },
        };
        put(&mut work, &h, Part::Meta, "max-eid".as_bytes(), key_u64(max_eid).as_slice());
        let _ = (crate::lmdb::RwTxn { env, work }).commit();
        self.attrs = attrs;
        Ok(())
    }
}

/// A fault among the first tables is the fault of all.
proof fn lemma_open_fault(
    tables: Seq<TableView>,
    settings: EnvOptions,
    plan: Seq<(Seq<char>, u32)>,
    n: int,
)
    requires
        0 <= n <= plan.len(),
        open_all(tables, settings, plan.take(n)) is Err,
    ensures
        open_all(tables, settings, plan) == open_all(tables, settings, plan.take(n)),
    decreases plan.len() - n,
{
    if n == plan.len() {
        assert(plan.take(n) =~= plan);
    } else {
        assert(plan.take(n + 1).drop_last() =~= plan.take(n));
        lemma_open_fault(tables, settings, plan, n + 1);
    }
}

// ---------------------------------------------------------------------------
// Queries
// ---------------------------------------------------------------------------

/// Keep the datoms with this value.
fn keep_having(ds: Vec<Datom>, want: &StoreValue) -> (r: Vec<Datom>)
    ensures
        datom_views(r@) == having_value(datom_views(ds@), want.view()),
{
    let ghost views = datom_views(ds@);
    let mut r: Vec<Datom> = Vec::new();
    let mut i: usize = 0;
    assert(views.take(0) =~= Seq::empty());
    assert(datom_views(r@) =~= Seq::empty());
    while i < ds.len()
        invariant
            i <= ds.len(),
            views == datom_views(ds@),
            datom_views(r@) == having_value(views.take(i as int), want.view()),
        decreases ds.len() - i,
    {
        assert(views.take(i + 1).drop_last() =~= views.take(i as int));
        assert(views.take(i + 1).last() == views[i as int]);
        if same_value(&ds[i].v, want) {
            let ghost before = datom_views(r@);
            let d = Datom { e: ds[i].e, a: ds[i].a.clone(), v: ds[i].v.clone() };
            r.push(d);
            assert(datom_views(r@) =~= before.push(views[i as int]));
        }
        i = i + 1;
    }
    assert(views.take(views.len() as int) =~= views);
    r
}

impl<'a> Reader<'a> {
    fn keep_opt(r: Result<Vec<Datom>, StoreError>, v: Option<&StoreValue>) -> (kept: Result<
        Vec<Datom>,
        StoreError,
    >)
        ensures
            found(kept) == keep_value(found(r), value_view(v)),
    {
        match (r, v) {
            (Ok(ds), Some(want)) => Ok(keep_having(ds, want)),
            (r, _) => r,
        }
    }

    /// Datoms matching the pattern; `None` components are wildcards.
    fn search(&self, e: Option<u64>, a: Option<&str>, v: Option<&StoreValue>) -> (r: Result<
        Vec<Datom>,
        StoreError,
    >)
        requires
            self.wf(),
        ensures
            found(r) == searched(self.db(), e, text_view(a), value_view(v)),
    {
        let aid: Option<u32> = match a {
            Some(name) => match find_attr_in(self.attrs, name) {
                Some((aid, _)) => Some(aid),
                None => {
                    let none: Vec<Datom> = Vec::new();
                    assert(datom_views(none@) =~= Seq::empty());
                    return Ok(none);
                },
            },
            None => None,
        };
        let venc = match self.encode_opt(v) {
            Ok(k) => k,
            Err(f) => {
                return Err(f);
            },
        };
        match (e, aid) {
            (Some(e), Some(aid)) => self.scan_index(
                Index::Eav,
                eav_key_of(e, aid, venc.as_slice()).as_slice(),
            ),
            (Some(e), None) => Self::keep_opt(
                self.scan_index(Index::Eav, key_u64(e).as_slice()),
                v,
            ),
            (None, Some(aid)) => {
                let mut prefix = key_aid(aid);
                push_bytes(&mut prefix, venc.as_slice());
                self.scan_index(Index::Ave, prefix.as_slice())
            },
            (None, None) => {
                if let Some(StoreValue::Ref(target)) = v {
                    self.scan_index(Index::Vae, key_u64(*target).as_slice())
                } else {
                    Self::keep_opt(self.scan_index(Index::Eav, no_bytes().as_slice()), v)
                }
            },
        }
    }

    /// Entries whose key starts with `prefix`, as a rank difference: two probes, no scan.
    fn count_prefix(&self, index: Index, prefix: &[u8]) -> (n: u64)
        requires
            self.wf(),
        ensures
            n as nat == matching(self.db().ix.index(index), prefix@).len(),
    {
        let part = Self::index_part(index);
        let dbi = self.h.get(part);
        proof {
            lemma_tables_sorted(self.snap@, *self.h);
            assert(sorted_rows(self.db().ix.rows(part), false));
            assert(self.h.at(part).0 < self.snap@.len());
            assert(countable(self.snap@, dbi));
            lemma_matching_count(self.db().ix.index(index), false, prefix@);
        }
        let start: u64 = match self.snap.count_below(dbi, prefix) {
            Ok(n) => n,
            Err(_) => 0,
        };
        let end: u64 = match prefix_successor(prefix) {
            Some(succ) => match self.snap.count_below(dbi, succ.as_slice()) {
                Ok(n) => n,
                Err(_) => 0,
            },
            None => match self.snap.count_all(dbi) {
                Ok(n) => n,
                Err(_) => 0,
            },
        };
        end - start
    }

    fn count(&self, e: Option<u64>, a: Option<&str>, v: Option<&StoreValue>) -> (r: Result<
        u64,
        StoreError,
    >)
        requires
            self.wf(),
        ensures
            match (r, counted(self.db(), e, text_view(a), value_view(v))) {
                (Ok(n), Ok(want)) => n as nat == want,
                (Err(f), Err(want)) => f.view() == want,
                _ => false,
            },
    {
        match a {
            Some(name) => {
                let aid: u32 = match find_attr_in(self.attrs, name) {
                    Some((aid, _)) => aid,
                    None => {
                        return Ok(0);
                    },
                };
                let venc = match self.encode_opt(v) {
                    Ok(k) => k,
                    Err(f) => {
                        return Err(f);
                    },
                };
                match e {
                    Some(e) => Ok(
                        self.count_prefix(
                            Index::Eav,
                            eav_key_of(e, aid, venc.as_slice()).as_slice(),
                        ),
                    ),
                    None => {
                        let mut prefix = key_aid(aid);
                        push_bytes(&mut prefix, venc.as_slice());
                        Ok(self.count_prefix(Index::Ave, prefix.as_slice()))
                    },
                }
            },
            None => match (e, v) {
                (Some(e), None) => Ok(self.count_prefix(Index::Eav, key_u64(e).as_slice())),
                (None, Some(StoreValue::Ref(target))) => Ok(
                    self.count_prefix(Index::Vae, key_u64(*target).as_slice()),
                ),
                (None, None) => {
                    proof {
                        assert(self.h.at(Part::Eav).0 < self.snap@.len());
                        assert(countable(self.snap@, self.h.eav));
                    }
                    match self.snap.count_all(self.h.eav) {
                        Ok(n) => Ok(n),
                        Err(f) => Err(StoreError::Lmdb(f)),
                    }
                },
                _ => match self.search(e, a, v) {
                    Ok(ds) => Ok(ds.len() as u64),
                    Err(f) => Err(f),
                },
            },
        }
    }

    /// The datom that a sampled `ave` row of attribute `a` stands for.
    fn sample_entry(&self, a: &str, k: &[u8]) -> (r: Result<Datom, StoreError>)
        requires
            self.wf(),
            k.len() >= 4,
        ensures
            match (r, sample_datom(self.db().ix, a@, k@)) {
                (Ok(d), Ok(want)) => d.view() == want,
                (Err(e), Err(f)) => e.view() == f,
                _ => false,
            },
    {
        let (v, used) = match self.decode_value(k, 4) {
            Ok(pair) => pair,
            Err(f) => {
                return Err(f);
            },
        };
        if k.len() - 4 - used < 8 {
            return Err(StoreError::Codec("short ave key"));
        }
        let e = read_be(k, 4 + used, 8);
        Ok(Datom { e, a: a.to_owned(), v })
    }

    fn sample_ave(&self, a: &str, n: u64) -> (r: Result<Vec<Datom>, StoreError>)
        requires
            self.wf(),
        ensures
            found(r) == sampled(self.db(), a@, n),
    {
        let mut out: Vec<Datom> = Vec::new();
        assert(datom_views(out@) =~= Seq::empty());
        let aid: u32 = match find_attr_in(self.attrs, a) {
            Some((aid, _)) => aid,
            None => {
                return Ok(out);
            },
        };
        let prefix = key_aid(aid);
        let ghost rows = self.db().ix.ave;
        let ghost want = matching(rows, prefix@);
        let ghost from = rank(rows, prefix@);
        proof {
            crate::bytes::lemma_be_len(aid as nat, 4);
            lemma_tables_sorted(self.snap@, *self.h);
            assert(sorted_rows(self.db().ix.rows(Part::Ave), false));
            assert(self.h.at(Part::Ave).0 < self.snap@.len());
            assert(countable(self.snap@, self.h.ave));
            lemma_matching(rows, false, prefix@);
        }
        let start: u64 = match self.snap.count_below(self.h.ave, prefix.as_slice()) {
            Ok(n) => n,
            Err(f) => {
                return Err(StoreError::Lmdb(f));
            },
        };
        let total: u64 = self.count_prefix(Index::Ave, prefix.as_slice());
        if total == 0 || n == 0 {
            return Ok(out);
        }
        let take: u64 = if n < total {
            n
        } else {
            total
        };
        let size: u64 = match self.snap.count_all(self.h.ave) {
            Ok(size) => size,
            Err(f) => {
                return Err(StoreError::Lmdb(f));
            },
        };
        let mut i: u64 = 0;
        while i < take
            invariant
                self.wf(),
                i <= take <= total,
                0 < take,
                prefix@.len() == 4,
                rows == self.db().ix.ave,
                want == matching(rows, prefix@),
                total as nat == want.len(),
                start as nat == rank(rows, prefix@),
                start + total <= rows.len(),
                rows.len() == size,
                sampled(self.db(), a@, n) == samples(
                    self.db().ix,
                    a@,
                    want,
                    take as nat,
                    take as nat,
                ),
                want == rows.subrange(start as int, start + total),
                forall|j: int| #![trigger rows[j]]
                    0 <= j < rows.len() ==> (starts_with(rows[j].0, prefix@) <==> start <= j < start
                        + total),
                countable(self.snap@, self.h.ave),
                self.snap@[self.h.ave.0 as int].rows == rows,
                samples(self.db().ix, a@, want, take as nat, i as nat) == Ok::<
                    Seq<DatomView>,
                    Fault,
                >(datom_views(out@)),
            decreases take - i,
        {
            let ghost at = (i as int * total as int) / (take as int);
            proof {
                assert(0 <= at < total) by (nonlinear_arith)
                    requires
                        0 <= i < take,
                        0 < total,
                        at == (i as int * total as int) / (take as int),
                ;
                assert(0 <= (i as u128) * (total as u128) <= u128::MAX) by (nonlinear_arith)
                    requires
                        i <= 0xFFFF_FFFF_FFFF_FFFF,
                        total <= 0xFFFF_FFFF_FFFF_FFFF,
                ;
            }
            let step: u128 = (i as u128) * (total as u128) / (take as u128);
            assert(step == at);
            let rank: u64 = start + step as u64;
            assert(want[at] == rows[start + at]);
            match self.snap.get_rank(self.h.ave, rank) {
                Ok(Some((k, _))) => {
                    assert(k@ == rows[start + at].0);
                    assert(starts_with(k@, prefix@));
                    match self.sample_entry(a, k) {
                        Ok(d) => {
                            let ghost before = datom_views(out@);
                            out.push(d);
                            assert(datom_views(out@) =~= before.push(d.view()));
                        },
                        Err(f) => {
                            proof {
                                lemma_sample_fault(
                                    self.db().ix,
                                    a@,
                                    want,
                                    take as nat,
                                    (i + 1) as nat,
                                    take as nat,
                                );
                            }
                            return Err(f);
                        },
                    }
                },
                Ok(None) => {},
                Err(f) => {
                    return Err(StoreError::Lmdb(f));
                },
            }
            i = i + 1;
        }
        Ok(out)
    }
}

/// A fault among the first samples is the fault of all.
proof fn lemma_sample_fault(ix: Indexes, a: Seq<char>, rows: Seq<Row>, take: nat, i: nat, n: nat)
    requires
        i <= n,
        samples(ix, a, rows, take, i) is Err,
    ensures
        samples(ix, a, rows, take, n) == samples(ix, a, rows, take, i),
    decreases n - i,
{
    if i < n {
        lemma_sample_fault(ix, a, rows, take, i, (n - 1) as nat);
    }
}

// ---------------------------------------------------------------------------
// Ranges
// ---------------------------------------------------------------------------

/// What an optional prefix holds.
spec fn prefix_view(r: Result<Option<Vec<u8>>, StoreError>) -> Result<Option<Seq<u8>>, Fault> {
    match r {
        Ok(Some(k)) => Ok(Some(k@)),
        Ok(None) => Ok(None),
        Err(e) => Err(e.view()),
    }
}

/// What a resolved range holds.
spec fn range_view(r: Result<Option<(Vec<u8>, Option<Vec<u8>>)>, StoreError>) -> Result<
    Option<(Seq<u8>, Option<Seq<u8>>)>,
    Fault,
> {
    match r {
        Ok(Some((lo, Some(hi)))) => Ok(Some((lo@, Some(hi@)))),
        Ok(Some((lo, None))) => Ok(Some((lo@, None))),
        Ok(None) => Ok(None),
        Err(e) => Err(e.view()),
    }
}

/// What an optional limit holds.
pub open spec fn limit_view(limit: Option<usize>) -> Option<nat> {
    match limit {
        Some(n) => Some(n as nat),
        None => None,
    }
}

impl<'a> Reader<'a> {
    /// Encode a bound's provided components into a key prefix. `Ok(None)` means the bound names
    /// an unknown attribute, so the range is empty.
    fn bound_prefix(&self, index: Index, b: &Bound<'_>) -> (r: Result<Option<Vec<u8>>, StoreError>)
        requires
            self.wf(),
        ensures
            prefix_view(r) == bound_prefix(self.db(), index, b.view()),
    {
        let aid: Option<u32> = match b.a {
            Some(name) => match find_attr_in(self.attrs, name) {
                Some((aid, _)) => Some(aid),
                None => None,
            },
            None => None,
        };
        match index {
            Index::Eav => match b.e {
                None => {
                    if b.a.is_some() || b.v.is_some() {
                        return Err(StoreError::Codec("eav bound has a/v without e"));
                    }
                    Ok(Some(no_bytes()))
                },
                Some(e) => match b.a {
                    None => {
                        if b.v.is_some() {
                            return Err(StoreError::Codec("eav bound has v without a"));
                        }
                        Ok(Some(key_u64(e)))
                    },
                    Some(_) => {
                        let aid: u32 = match aid {
                            Some(aid) => aid,
                            None => {
                                return Ok(None);
                            },
                        };
                        match self.encode_opt(b.v) {
                            Ok(venc) => Ok(Some(eav_key_of(e, aid, venc.as_slice()))),
                            Err(f) => Err(f),
                        }
                    },
                },
            },
            Index::Ave => match b.a {
                None => {
                    if b.v.is_some() || b.e.is_some() {
                        return Err(StoreError::Codec("ave bound has v/e without a"));
                    }
                    Ok(Some(no_bytes()))
                },
                Some(_) => {
                    let aid: u32 = match aid {
                        Some(aid) => aid,
                        None => {
                            return Ok(None);
                        },
                    };
                    match b.v {
                        None => {
                            if b.e.is_some() {
                                return Err(StoreError::Codec("ave bound has e without v"));
                            }
                            Ok(Some(key_aid(aid)))
                        },
                        Some(v) => {
                            let venc = match self.encode_value_readonly(v) {
                                Ok(venc) => venc,
                                Err(f) => {
                                    return Err(f);
                                },
                            };
                            match b.e {
                                Some(e) => Ok(Some(ave_key_of(aid, venc.as_slice(), e))),
                                None => {
                                    let mut key = key_aid(aid);
                                    push_bytes(&mut key, venc.as_slice());
                                    Ok(Some(key))
                                },
                            }
                        },
                    }
                },
            },
            Index::Vae => match b.v {
                Some(StoreValue::Ref(target)) => match b.a {
                    None => {
                        if b.e.is_some() {
                            return Err(StoreError::Codec("vae bound has e without a"));
                        }
                        Ok(Some(key_u64(*target)))
                    },
                    Some(_) => {
                        let aid: u32 = match aid {
                            Some(aid) => aid,
                            None => {
                                return Ok(None);
                            },
                        };
                        match b.e {
                            Some(e) => Ok(Some(vae_key_of(*target, aid, e))),
                            None => {
                                let mut key = key_u64(*target);
                                push_be(aid as u64, 4, &mut key);
                                Ok(Some(key))
                            },
                        }
                    },
                },
                Some(_) => Err(StoreError::Codec("vae bound v must be a ref")),
                None => {
                    if b.a.is_some() || b.e.is_some() {
                        return Err(StoreError::Codec("vae bound has a/e without v"));
                    }
                    Ok(Some(no_bytes()))
                },
            },
        }
    }

    /// Resolve a bound pair into the byte range from the first key up to but without the second.
    /// `Ok(None)` means the range is provably empty.
    fn resolve_range(&self, index: Index, low: &Bound<'_>, high: &Bound<'_>) -> (r: Result<
        Option<(Vec<u8>, Option<Vec<u8>>)>,
        StoreError,
    >)
        requires
            self.wf(),
        ensures
            range_view(r) == key_range(self.db(), index, low.view(), high.view()),
    {
        let lo_prefix = match self.bound_prefix(index, low) {
            Ok(Some(p)) => p,
            Ok(None) => {
                return Ok(None);
            },
            Err(f) => {
                return Err(f);
            },
        };
        let hi_prefix = match self.bound_prefix(index, high) {
            Ok(Some(p)) => p,
            Ok(None) => {
                return Ok(None);
            },
            Err(f) => {
                return Err(f);
            },
        };
        let lo_key = if low.closed || lo_prefix.len() == 0 {
            lo_prefix
        } else {
            match prefix_successor(lo_prefix.as_slice()) {
                Some(s) => s,
                None => {
                    return Ok(None);
                },
            }
        };
        let hi_excl: Option<Vec<u8>> = if hi_prefix.len() == 0 {
            None
        } else if high.closed {
            prefix_successor(hi_prefix.as_slice())
        } else {
            Some(hi_prefix)
        };
        match hi_excl {
            None => Ok(Some((lo_key, None))),
            Some(hi) => {
                proof {
                    crate::bytes::lemma_lex_irreflexive(lo_key@);
                }
                match lex_compare(lo_key.as_slice(), hi.as_slice()) {
                    Rank::Below => Ok(Some((lo_key, Some(hi)))),
                    _ => Ok(None),
                }
            },
        }
    }

    /// The position of the first row at or above `key` in an index.
    fn index_rank(&self, index: Index, key: &[u8]) -> (n: u64)
        requires
            self.wf(),
        ensures
            n as nat == rank(self.db().ix.index(index), key@),
    {
        let part = Self::index_part(index);
        let dbi = self.h.get(part);
        proof {
            lemma_tables_sorted(self.snap@, *self.h);
            assert(self.db().ix.rows(part) == self.snap@[self.h.at(part).0 as int].rows);
            assert(countable(self.snap@, dbi));
        }
        match self.snap.count_below(dbi, key) {
            Ok(n) => n,
            Err(_) => 0,
        }
    }

    /// How many rows an index has.
    fn index_len(&self, index: Index) -> (n: u64)
        requires
            self.wf(),
        ensures
            n as nat == self.db().ix.index(index).len(),
    {
        let part = Self::index_part(index);
        let dbi = self.h.get(part);
        proof {
            lemma_tables_sorted(self.snap@, *self.h);
            assert(self.db().ix.rows(part) == self.snap@[self.h.at(part).0 as int].rows);
            assert(countable(self.snap@, dbi));
        }
        match self.snap.count_all(dbi) {
            Ok(n) => n,
            Err(_) => 0,
        }
    }

    fn slice(
        &self,
        index: Index,
        low: &Bound<'_>,
        high: &Bound<'_>,
        limit: Option<usize>,
        reverse: bool,
    ) -> (r: Result<Vec<Datom>, StoreError>)
        requires
            self.wf(),
        ensures
            found(r) == sliced(
                self.db(),
                index,
                low.view(),
                high.view(),
                limit_view(limit),
                reverse,
            ),
    {
        let none: Vec<Datom> = Vec::new();
        assert(datom_views(none@) =~= Seq::empty());
        if let Some(n) = limit {
            if n == 0 {
                return Ok(none);
            }
        }
        let (lo_key, hi_excl) = match self.resolve_range(index, low, high) {
            Ok(Some(range)) => range,
            Ok(None) => {
                proof {
                    assert(Seq::<Row>::empty().reverse() =~= Seq::empty());
                }
                return Ok(none);
            },
            Err(f) => {
                return Err(f);
            },
        };
        if reverse {
            self.walk_down(index, lo_key.as_slice(), hi_excl.as_ref(), limit)
        } else {
            self.walk_up(index, lo_key.as_slice(), hi_excl.as_ref(), limit)
        }
    }

    /// The datoms of a byte range from its high end.
    fn walk_down(
        &self,
        index: Index,
        lo: &[u8],
        hi: Option<&Vec<u8>>,
        limit: Option<usize>,
    ) -> (r: Result<Vec<Datom>, StoreError>)
        requires
            self.wf(),
            limit != Some(0usize),
        ensures
            found(r) == entry_datoms(
                self.db(),
                index,
                limited(
                    range_rows(
                        self.db().ix.index(index),
                        Some((lo@, vec_view(hi))),
                    ).reverse(),
                    limit_view(limit),
                ),
            ),
    {
        let part = Self::index_part(index);
        let ghost rows = self.db().ix.index(index);
        let ghost from = rank(rows, lo@) as int;
        let ghost to = match vec_view(hi) {
            Some(hi) => rank(rows, hi) as int,
            None => rows.len() as int,
        };
        let ghost rev = range_rows(rows, Some((lo@, vec_view(hi)))).reverse();
        let ghost want = limited(rev, limit_view(limit));
        proof {
            lemma_tables_sorted(self.snap@, *self.h);
            assert(sorted_rows(self.db().ix.rows(part), false));
            lemma_cut(rows, false, front(lo@));
            if let Some(hi) = vec_view(hi) {
                lemma_cut(rows, false, front(hi));
            }
            assert(self.h.at(part).0 < self.snap@.len());
            assert(want.take(0) =~= Seq::empty());
        }
        let mut out: Vec<Datom> = Vec::new();
        assert(datom_views(out@) =~= Seq::empty());
        let mut cur = match self.snap.cursor(self.h.get(part)) {
            Ok(cur) => cur,
            Err(f) => {
                return Err(StoreError::Lmdb(f));
            },
        };
        let placed = match hi {
            None => cur.last(),
            Some(hi) => match cur.set_range(hi.as_slice()) {
                Ok(Some(_)) => cur.prev(),
                _ => cur.last(),
            },
        };
        let mut entry = match placed {
            Ok(entry) => entry,
            Err(f) => {
                return Err(StoreError::Lmdb(f));
            },
        };
        let ghost mut j: int = 0;
        loop
            invariant
                self.wf(),
                limit != Some(0usize),
                rows == self.db().ix.index(index),
                from == rank(rows, lo@),
                to <= rows.len(),
                0 <= from,
                0 <= to,
                rev.len() == if from < to {
                    to - from
                } else {
                    0
                },
                forall|p: int| #![trigger rev[p]] 0 <= p < rev.len() ==> rev[p] == rows[to - 1 - p],
                rev == range_rows(rows, Some((lo@, vec_view(hi)))).reverse(),
                want == limited(rev, limit_view(limit)),
                forall|i: int| #![trigger rows[i]]
                    0 <= i < rows.len() ==> (before_cut(rows[i], front(lo@)) <==> i < from),
                cur.wf(),
                cur.table().rows == rows,
                0 <= j <= want.len(),
                limit matches Some(n) ==> j < n,
                crate::lmdb::entry_view(entry) == crate::lmdb::row_at(rows, to - 1 - j),
                to - 1 - j >= 0 ==> cur.at() == Some(to - 1 - j),
                entry_datoms(self.db(), index, want.take(j)) == Ok::<Seq<DatomView>, Fault>(
                    datom_views(out@),
                ),
            decreases want.len() - j,
        {
            match entry {
                None => {
                    proof {
                        assert(j == want.len());
                        assert(want.take(j) =~= want);
                    }
                    return Ok(out);
                },
                Some((k, _)) => {
                    proof {
                        assert(k@ == rows[to - 1 - j].0);
                        crate::bytes::lemma_lex_irreflexive(lo@);
                    }
                    match lex_compare(k, lo) {
                        Rank::Below => {
                            proof {
                                assert(before_cut(rows[to - 1 - j], front(lo@)));
                                assert(j == want.len());
                                assert(want.take(j) =~= want);
                            }
                            return Ok(out);
                        },
                        _ => {},
                    }
                    proof {
                        assert(!before_cut(rows[to - 1 - j], front(lo@)));
                        assert(j < rev.len());
                        assert(rev[j] == rows[to - 1 - j]);
                        assert(j < want.len());
                        assert(want[j] == rows[to - 1 - j]);
                        assert(want.take(j + 1).drop_last() =~= want.take(j));
                        assert(want.take(j + 1).last() == want[j]);
                    }
                    match self.decode_index_entry(index, k) {
                        Err(f) => {
                            proof {
                                lemma_first_fault(self.db(), index, want, j + 1);
                            }
                            return Err(f);
                        },
                        Ok(d) => {
                            let ghost before = datom_views(out@);
                            out.push(d);
                            proof {
                                assert(datom_views(out@) =~= before.push(d.view()));
                                j = j + 1;
                            }
                        },
                    }
                    assert(out@.len() == j) by {
                        lemma_entry_count(self.db(), index, want.take(j));
                    }
                    if let Some(n) = limit {
                        if out.len() >= n {
                            proof {
                                assert(j == want.len());
                                assert(want.take(j) =~= want);
                            }
                            return Ok(out);
                        }
                    }
                    entry = match cur.prev() {
                        Ok(entry) => entry,
                        Err(f) => {
                            return Err(StoreError::Lmdb(f));
                        },
                    };
                },
            }
        }
    }

    /// The datoms of a byte range from its low end.
    fn walk_up(
        &self,
        index: Index,
        lo: &[u8],
        hi: Option<&Vec<u8>>,
        limit: Option<usize>,
    ) -> (r: Result<Vec<Datom>, StoreError>)
        requires
            self.wf(),
            limit != Some(0usize),
        ensures
            found(r) == entry_datoms(
                self.db(),
                index,
                limited(
                    range_rows(self.db().ix.index(index), Some((lo@, vec_view(hi)))),
                    limit_view(limit),
                ),
            ),
    {
        let part = Self::index_part(index);
        let ghost rows = self.db().ix.index(index);
        let ghost from = rank(rows, lo@) as int;
        let ghost to = match vec_view(hi) {
            Some(hi) => rank(rows, hi) as int,
            None => rows.len() as int,
        };
        let ghost all = range_rows(rows, Some((lo@, vec_view(hi))));
        let ghost want = limited(all, limit_view(limit));
        proof {
            lemma_tables_sorted(self.snap@, *self.h);
            assert(sorted_rows(self.db().ix.rows(part), false));
            lemma_cut(rows, false, front(lo@));
            if let Some(hi) = vec_view(hi) {
                lemma_cut(rows, false, front(hi));
            }
            assert(self.h.at(part).0 < self.snap@.len());
            assert(want.take(0) =~= Seq::empty());
        }
        let mut out: Vec<Datom> = Vec::new();
        assert(datom_views(out@) =~= Seq::empty());
        let mut it = match self.snap.range(self.h.get(part), Some(lo), None) {
            Ok(it) => it,
            Err(f) => {
                return Err(StoreError::Lmdb(f));
            },
        };
        let ghost mut j: int = 0;
        proof {
            assert(it.remaining() =~= rows.skip(from));
        }
        loop
            invariant
                self.wf(),
                limit != Some(0usize),
                rows == self.db().ix.index(index),
                from <= rows.len(),
                to <= rows.len(),
                0 <= from,
                0 <= to,
                all.len() == if from < to {
                    to - from
                } else {
                    0
                },
                forall|p: int| #![trigger all[p]] 0 <= p < all.len() ==> all[p] == rows[from + p],
                all == range_rows(rows, Some((lo@, vec_view(hi)))),
                want == limited(all, limit_view(limit)),
                match vec_view(hi) {
                    Some(hi) => forall|i: int| #![trigger rows[i]]
                        0 <= i < rows.len() ==> (before_cut(rows[i], front(hi)) <==> i < to),
                    None => to == rows.len(),
                },
                it.wf(),
                0 <= j <= want.len(),
                limit matches Some(n) ==> j < n,
                it.remaining() == rows.skip(from + j),
                from + j <= rows.len(),
                entry_datoms(self.db(), index, want.take(j)) == Ok::<Seq<DatomView>, Fault>(
                    datom_views(out@),
                ),
            decreases want.len() - j,
        {
            match it.next() {
                None => {
                    proof {
                        assert(j == want.len());
                        assert(want.take(j) =~= want);
                    }
                    return Ok(out);
                },
                Some((k, _)) => {
                    proof {
                        assert(k@ == rows.skip(from + j)[0].0);
                        assert(k@ == rows[from + j].0);
                        assert(rows.skip(from + j).skip(1) =~= rows.skip(from + j + 1));
                    }
                    if let Some(hi) = hi {
                        proof {
                            crate::bytes::lemma_lex_irreflexive(hi@);
                        }
                        match lex_compare(k, hi.as_slice()) {
                            Rank::Below => {
                                assert(before_cut(rows[from + j], front(hi@)));
                            },
                            _ => {
                                proof {
                                    assert(!before_cut(rows[from + j], front(hi@)));
                                    assert(j == want.len());
                                    assert(want.take(j) =~= want);
                                }
                                return Ok(out);
                            },
                        }
                    }
                    proof {
                        assert(from + j < to);
                        assert(all[j] == rows[from + j]);
                        assert(j < want.len());
                        assert(want[j] == rows[from + j]);
                        assert(want.take(j + 1).drop_last() =~= want.take(j));
                        assert(want.take(j + 1).last() == want[j]);
                    }
                    match self.decode_index_entry(index, k) {
                        Err(f) => {
                            proof {
                                lemma_first_fault(self.db(), index, want, j + 1);
                            }
                            return Err(f);
                        },
                        Ok(d) => {
                            let ghost before = datom_views(out@);
                            out.push(d);
                            proof {
                                assert(datom_views(out@) =~= before.push(d.view()));
                                j = j + 1;
                            }
                        },
                    }
                    assert(out@.len() == j) by {
                        lemma_entry_count(self.db(), index, want.take(j));
                    }
                    if let Some(n) = limit {
                        if out.len() >= n {
                            proof {
                                assert(j == want.len());
                                assert(want.take(j) =~= want);
                            }
                            return Ok(out);
                        }
                    }
                },
            }
        }
    }
}

/// What an optional key holds.
pub open spec fn vec_view(v: Option<&Vec<u8>>) -> Option<Seq<u8>> {
    match v {
        Some(v) => Some(v@),
        None => None,
    }
}

/// Each row gives one datom.
pub proof fn lemma_entry_count(db: Db, index: Index, rows: Seq<Row>)
    ensures
        entry_datoms(db, index, rows) matches Ok(ds) ==> ds.len() == rows.len(),
    decreases rows.len(),
{
    if rows.len() > 0 {
        lemma_entry_count(db, index, rows.drop_last());
    }
}

impl Store {
    fn reader<'a>(&'a self, snap: &'a Snapshot) -> (r: Reader<'a>)
        requires
            self.wf(),
            snap@ == self.env@,
        ensures
            r.wf(),
            r.db() == self.db(),
    {
        Reader { snap, h: &self.h, attrs: &self.attrs }
    }

    /// Datoms matching the pattern; `None` components are wildcards. Bound `e` scans `eav`,
    /// bound `a` scans `ave`, a bound ref value scans `vae`, and the empty pattern scans
    /// everything.
    ///
    /// # Errors
    ///
    /// Returns the underlying storage or codec error.
    pub fn search(&self, e: Option<u64>, a: Option<&str>, v: Option<&StoreValue>) -> (r: Result<
        Vec<Datom>,
        StoreError,
    >)
        requires
            self.wf(),
        ensures
            found(r) == searched(self.db(), e, text_view(a), value_view(v)),
    {
        match self.env.read_txn() {
            Ok(ro) => self.reader(ro.snapshot()).search(e, a, v),
            Err(f) => Err(StoreError::Lmdb(f)),
        }
    }

    /// Count of datoms matching the pattern, for optimizer statistics. Patterns that do not map
    /// onto one contiguous index range fall back to the length of a search.
    ///
    /// # Errors
    ///
    /// Returns the underlying storage or codec error.
    pub fn count(&self, e: Option<u64>, a: Option<&str>, v: Option<&StoreValue>) -> (r: Result<
        u64,
        StoreError,
    >)
        requires
            self.wf(),
        ensures
            match (r, counted(self.db(), e, text_view(a), value_view(v))) {
                (Ok(n), Ok(want)) => n as nat == want,
                (Err(f), Err(want)) => f.view() == want,
                _ => false,
            },
    {
        match self.env.read_txn() {
            Ok(ro) => self.reader(ro.snapshot()).count(e, a, v),
            Err(f) => Err(StoreError::Lmdb(f)),
        }
    }

    /// Values asserted for an attribute (its `ave` extent).
    ///
    /// # Errors
    ///
    /// Returns the underlying storage or codec error.
    pub fn cardinality(&self, a: &str) -> (r: Result<u64, StoreError>)
        requires
            self.wf(),
        ensures
            match (r, counted(self.db(), None, Some(a@), None)) {
                (Ok(n), Ok(want)) => n as nat == want,
                (Err(f), Err(want)) => f.view() == want,
                _ => false,
            },
    {
        self.count(None, Some(a), None)
    }

    /// Up to `n` datoms evenly rank-sampled from an attribute's `ave` range: the optimizer's
    /// value-distribution probe.
    ///
    /// # Errors
    ///
    /// Returns the underlying storage or codec error.
    pub fn sample_ave(&self, a: &str, n: u64) -> (r: Result<Vec<Datom>, StoreError>)
        requires
            self.wf(),
        ensures
            found(r) == sampled(self.db(), a@, n),
    {
        match self.env.read_txn() {
            Ok(ro) => self.reader(ro.snapshot()).sample_ave(a, n),
            Err(f) => Err(StoreError::Lmdb(f)),
        }
    }

    /// Ordered datoms within an index range given by partial-datom bounds (inclusive unless a
    /// bound is open). Missing bound components mean +/- infinity. `reverse` walks high-to-low;
    /// `limit` caps the result.
    ///
    /// # Errors
    ///
    /// Returns the underlying storage or codec error, or a codec error for non-contiguous bound
    /// components.
    pub fn slice(
        &self,
        index: Index,
        low: &Bound<'_>,
        high: &Bound<'_>,
        limit: Option<usize>,
        reverse: bool,
    ) -> (r: Result<Vec<Datom>, StoreError>)
        requires
            self.wf(),
        ensures
            found(r) == sliced(
                self.db(),
                index,
                low.view(),
                high.view(),
                limit_view(limit),
                reverse,
            ),
    {
        match self.env.read_txn() {
            Ok(ro) => self.reader(ro.snapshot()).slice(index, low, high, limit, reverse),
            Err(f) => {
                assert(false);
                Err(StoreError::Lmdb(f))
            },
        }
    }

    /// Count of datoms within an index range given by partial-datom bounds, via rank
    /// differences.
    ///
    /// # Errors
    ///
    /// Returns the underlying storage or codec error, or a codec error for non-contiguous bound
    /// components.
    pub fn count_range(&self, index: Index, low: &Bound<'_>, high: &Bound<'_>) -> (r: Result<
        u64,
        StoreError,
    >)
        requires
            self.wf(),
        ensures
            match (r, range_counted(self.db(), index, low.view(), high.view())) {
                (Ok(n), Ok(want)) => n as nat == want,
                (Err(f), Err(want)) => f.view() == want,
                _ => false,
            },
    {
        let ro = match self.env.read_txn() {
            Ok(ro) => ro,
            Err(f) => {
                return Err(StoreError::Lmdb(f));
            },
        };
        let reader = self.reader(ro.snapshot());
        let (lo, hi) = match reader.resolve_range(index, low, high) {
            Ok(Some(range)) => range,
            Ok(None) => {
                return Ok(0);
            },
            Err(f) => {
                return Err(f);
            },
        };
        proof {
            self.lemma_wf();
            let rows = self.db().ix.index(index);
            assert(sorted_rows(self.db().ix.rows(Part::Eav), false));
            assert(sorted_rows(self.db().ix.rows(Part::Ave), false));
            assert(sorted_rows(self.db().ix.rows(Part::Vae), false));
            lemma_cut(rows, false, front(lo@));
            if hi is Some {
                lemma_cut(rows, false, front((hi->0)@));
            }
        }
        let start: u64 = reader.index_rank(index, lo.as_slice());
        let end: u64 = match hi {
            Some(hi) => reader.index_rank(index, hi.as_slice()),
            None => reader.index_len(index),
        };
        Ok(end.saturating_sub(start))
    }

    /// The smallest entity id >= `from` that has any datom, or None.
    ///
    /// # Errors
    ///
    /// Returns the underlying storage error.
    pub fn next_eid(&self, from: u64) -> (r: Result<Option<u64>, StoreError>)
        requires
            self.wf(),
        ensures
            match (r, next_entity(self.db().ix.eav, from)) {
                (Ok(e), Ok(want)) => e == want,
                (Err(f), Err(want)) => f.view() == want,
                _ => false,
            },
    {
        let ro = match self.env.read_txn() {
            Ok(ro) => ro,
            Err(f) => {
                return Err(StoreError::Lmdb(f));
            },
        };
        assert(self.h.at(Part::Eav).0 < ro@.len());
        let mut cursor = match ro.cursor(self.h.eav) {
            Ok(cursor) => cursor,
            Err(f) => {
                return Err(StoreError::Lmdb(f));
            },
        };
        match cursor.set_range(key_u64(from).as_slice()) {
            Ok(None) => Ok(None),
            Ok(Some((k, _))) => {
                if k.len() < 8 {
                    return Err(StoreError::Codec("short eav key"));
                }
                assert(k@.subrange(0, 8) =~= k@.take(8));
                Ok(Some(read_be(k, 0, 8)))
            },
            Err(f) => Err(StoreError::Lmdb(f)),
        }
    }

    /// The largest entity id ever asserted.
    ///
    /// # Errors
    ///
    /// None.
    pub fn max_eid(&self) -> (r: Result<u64, StoreError>)
        requires
            self.wf(),
        ensures
            r matches Ok(e) && e == stored_max_eid(self.db().ix.meta),
    {
        match self.env.read_txn() {
            Ok(ro) => Ok(stored_max_eid_in(ro.snapshot(), &self.h)),
            Err(f) => Err(StoreError::Lmdb(f)),
        }
    }
}

/// Names with properties in ascending order of the names' bytes.
pub open spec fn names_ascend(list: Seq<(Seq<char>, AttrProps)>) -> bool {
    forall|i: int, j: int| #![trigger list[i], list[j]]
        0 <= i < j < list.len() ==> lex_lt(encode_utf8(list[i].0), encode_utf8(list[j].0))
}

/// The list holds each of the attributes, and nothing else.
pub open spec fn lists(list: Seq<(Seq<char>, AttrProps)>, attrs: Seq<AttrRec>) -> bool {
    &&& list.len() == attrs.len()
    &&& forall|i: int| 0 <= i < list.len() ==> names_one(attrs, #[trigger] list[i])
    &&& forall|k: int| 0 <= k < attrs.len() ==> list.contains(
        ((#[trigger] attrs[k]).name, attrs[k].props),
    )
}

/// The pair is one of the attributes.
pub open spec fn names_one(attrs: Seq<AttrRec>, pair: (Seq<char>, AttrProps)) -> bool {
    exists|k: int| 0 <= k < attrs.len() && (#[trigger] attrs[k]).name == pair.0 && attrs[k].props
        == pair.1
}

/// What the listed attributes hold.
pub open spec fn listed(list: Seq<(String, AttrProps)>) -> Seq<(Seq<char>, AttrProps)> {
    Seq::new(list.len(), |i: int| (list[i].0@, list[i].1))
}

impl Store {
    /// Every declared attribute with its properties, sorted by name.
    #[must_use]
    pub fn attrs(&self) -> (r: Vec<(String, AttrProps)>)
        requires
            self.wf(),
        ensures
            names_ascend(listed(r@)),
            lists(listed(r@), self.db().attrs),
    {
        let ghost recs = attr_recs(self.attrs@);
        let mut r: Vec<(String, AttrProps)> = Vec::new();
        let mut k: usize = 0;
        while k < self.attrs.len()
            invariant
                k <= self.attrs.len(),
                recs == attr_recs(self.attrs@),
                unique_names(recs),
                names_ascend(listed(r@)),
                lists(listed(r@), recs.take(k as int)),
            decreases self.attrs.len() - k,
        {
            let name = self.attrs[k].name.as_str();
            let ghost before = listed(r@);
            let mut at: usize = 0;
            while at < r.len() && is_below(r[at].0.as_str(), name)
                invariant
                    at <= r.len(),
                    before == listed(r@),
                    forall|i: int| 0 <= i < at ==> lex_lt(
                        encode_utf8((#[trigger] before[i]).0),
                        encode_utf8(name@),
                    ),
                decreases r.len() - at,
            {
                assert(before[at as int].0 == r@[at as int].0@);
                at = at + 1;
            }
            proof {
                let pair = (name@, self.attrs@[k as int].props);
                let after = before.insert(at as int, pair);
                assert(recs[k as int].name == name@);
                assert forall|i: int| at <= i < before.len() implies lex_lt(
                    encode_utf8(name@),
                    encode_utf8((#[trigger] before[i]).0),
                ) by {
                    assert(names_one(recs.take(k as int), before[i]));
                    let m = choose|m: int| 0 <= m < k && (#[trigger] recs.take(k as int)[m]).name
                        == before[i].0 && recs.take(k as int)[m].props == before[i].1;
                    assert(recs[m].name != recs[k as int].name);
                    crate::bytes::lemma_lex_total(encode_utf8(before[i].0), encode_utf8(name@));
                    if encode_utf8(before[i].0) == encode_utf8(name@) {
                        crate::text::lemma_utf8_injective(before[i].0, name@);
                    }
                    assert(before[at as int].0 == r@[at as int].0@);
                    if i > at {
                        assert(!lex_lt(encode_utf8(before[at as int].0), encode_utf8(name@)));
                        if lex_lt(encode_utf8(before[i].0), encode_utf8(name@)) {
                            crate::bytes::lemma_lex_transitive(
                                encode_utf8(before[at as int].0),
                                encode_utf8(before[i].0),
                                encode_utf8(name@),
                            );
                        }
                    }
                }
                assert(names_ascend(after)) by {
                    assert forall|i: int, j: int| #![trigger after[i], after[j]]
                        0 <= i < j < after.len() implies lex_lt(
                        encode_utf8(after[i].0),
                        encode_utf8(after[j].0),
                    ) by {
                        let x = if i < at {
                            i
                        } else {
                            i - 1
                        };
                        let y = if j < at {
                            j
                        } else {
                            j - 1
                        };
                        if i != at {
                            assert(after[i] == before[x]);
                        }
                        if j != at {
                            assert(after[j] == before[y]);
                        }
                    }
                }
                let next = recs.take(k + 1);
                assert forall|i: int| 0 <= i < after.len() implies names_one(
                    next,
                    #[trigger] after[i],
                ) by {
                    if i == at {
                        assert(next[k as int].name == pair.0);
                    } else {
                        let x = if i < at {
                            i
                        } else {
                            i - 1
                        };
                        assert(after[i] == before[x]);
                        assert(names_one(recs.take(k as int), before[x]));
                        let m = choose|m: int| 0 <= m < k && (#[trigger] recs.take(
                            k as int,
                        )[m]).name == before[x].0 && recs.take(k as int)[m].props == before[x].1;
                        assert(next[m] == recs[m]);
                    }
                }
                assert forall|m: int| 0 <= m < next.len() implies after.contains(
                    ((#[trigger] next[m]).name, next[m].props),
                ) by {
                    if m == k {
                        assert(after[at as int] == pair);
                    } else {
                        assert(recs.take(k as int)[m] == next[m]);
                        let i = before.index_of((next[m].name, next[m].props));
                        assert(before[i] == (next[m].name, next[m].props));
                        assert(after[if i < at { i } else { i + 1 }] == before[i]);
                    }
                }
            }
            r.insert(at, (self.attrs[k].name.clone(), self.attrs[k].props));
            assert(listed(r@) =~= before.insert(
                at as int,
                (name@, self.attrs@[k as int].props),
            ));
            k = k + 1;
        }
        assert(recs.take(recs.len() as int) =~= recs);
        r
    }
}

/// Whether one name sorts before another.
fn is_below(a: &str, b: &str) -> (r: bool)
    ensures
        r == lex_lt(encode_utf8(a@), encode_utf8(b@)),
{
    proof {
        crate::bytes::lemma_lex_irreflexive(encode_utf8(a@));
    }
    match lex_compare(a.as_bytes(), b.as_bytes()) {
        Rank::Below => true,
        _ => false,
    }
}

/// A planned table that is there opens as it is.
proof fn lemma_reopen_all(
    tables: Seq<TableView>,
    h: Handles,
    settings: EnvOptions,
    plan: Seq<(Seq<char>, u32)>,
)
    requires
        tables_ok(tables, h),
        settings.flags.0 & crate::lmdb::MDB_RDONLY == 0,
        plan.len() <= 7,
        plan == table_plan().take(plan.len() as int),
    ensures
        open_all(tables, settings, plan) matches Ok((next, dbis)) && next == tables && dbis.len()
            == plan.len() && forall|p: Part| part_slot(p) < plan.len() ==> dbis[part_slot(p)]
            == #[trigger] h.at(p),
    decreases plan.len(),
{
    if plan.len() > 0 {
        let init = plan.drop_last();
        let n = plan.len() - 1;
        assert(init =~= table_plan().take(n as int));
        lemma_reopen_all(tables, h, settings, init);
        let part = slot_part(n as int);
        assert(part_slot(part) == n);
        assert(plan.last() == table_plan()[n as int]);
        assert(table_named(tables, part_name(part)) == Some(h.at(part).0 as nat));
        lemma_plan_nul_free(n as int);
        let (next, before) = open_all(tables, settings, init)->Ok_0;
        let dbis = before.push(h.at(part));
        assert forall|p: Part| part_slot(p) < plan.len() implies dbis[part_slot(p)]
            == #[trigger] h.at(p) by {
            if part_slot(p) < n {
                assert(before[part_slot(p)] == h.at(p));
            } else {
                assert(p == part);
            }
        }
    }
}

/// The table at a position of the plan.
spec fn slot_part(n: int) -> Part {
    if n == 0 {
        Part::Eav
    } else if n == 1 {
        Part::Ave
    } else if n == 2 {
        Part::Vae
    } else if n == 3 {
        Part::Schema
    } else if n == 4 {
        Part::Meta
    } else if n == 5 {
        Part::Giants
    } else {
        Part::GiantIds
    }
}

/// The planned names hold no NUL.
proof fn lemma_plan_nul_free(i: int)
    requires
        0 <= i < 7,
    ensures
        crate::lmdb::nul_free(table_plan()[i].0),
{
    reveal_strlit("eav");
    reveal_strlit("ave");
    reveal_strlit("vae");
    reveal_strlit("schema");
    reveal_strlit("meta");
    reveal_strlit("giants");
    reveal_strlit("giant-ids");
    let p = table_plan();
    assert(p[0].0 == "eav"@ && p[1].0 == "ave"@ && p[2].0 == "vae"@ && p[3].0 == "schema"@
        && p[4].0 == "meta"@ && p[5].0 == "giants"@ && p[6].0 == "giant-ids"@);
    assert forall|j: int| 0 <= j < p[i].0.len() implies #[trigger] p[i].0[j] != '\0' by {
        assert(i == 0 || i == 1 || i == 2 || i == 3 || i == 4 || i == 5 || i == 6);
        assert(j == 0 || j == 1 || j == 2 || j == 3 || j == 4 || j == 5 || j == 6 || j == 7 || j
            == 8);
    }
}

/// A store opened over the tables of another has the same rows; its attributes are those that
/// the schema rows declare.
pub proof fn law_reopen_rows(store: Store, image: Seq<Table>, flags: EnvFlags)
    requires
        store.wf(),
        store.has_image(image),
        (flags.0 | crate::lmdb::MDB_NOTLS) & crate::lmdb::MDB_RDONLY == 0,
    ensures
        opened_store(image, flags) == match read_schema(store.db().ix.schema) {
            Ok(attrs) => Ok::<Db, Fault>(Db { ix: store.db().ix, attrs }),
            Err(f) => Err(f),
        },
{
    let tables = store.env@;
    assert forall|i: int| 0 <= i < image.len() implies loaded(image)[i] == #[trigger] tables[i] by {
        assert(image[i]@ == tables[i]);
        assert(tables[i].wf());
        crate::lmdb::law_stored_sorted(tables[i].rows, tables[i].dup());
    }
    assert(loaded(image) =~= tables);
    let plan = table_plan();
    assert(plan.take(7) =~= plan);
    lemma_reopen_all(tables, store.h, store_settings(flags), plan);
    let (_, dbis) = open_all(tables, store_settings(flags), plan)->Ok_0;
    assert(dbis[part_slot(Part::Eav)] == store.h.at(Part::Eav));
    assert(dbis[part_slot(Part::Ave)] == store.h.at(Part::Ave));
    assert(dbis[part_slot(Part::Vae)] == store.h.at(Part::Vae));
    assert(dbis[part_slot(Part::Schema)] == store.h.at(Part::Schema));
    assert(dbis[part_slot(Part::Meta)] == store.h.at(Part::Meta));
    assert(dbis[part_slot(Part::Giants)] == store.h.at(Part::Giants));
    assert(dbis[part_slot(Part::GiantIds)] == store.h.at(Part::GiantIds));
    assert(handles(dbis) == store.h);
}

/// Every planned table is created where it is missing.
proof fn lemma_plan_creates()
    ensures
        forall|i: int| 0 <= i < 7 ==> (#[trigger] table_plan()[i]).1 & crate::lmdb::MDB_CREATE != 0,
{
    assert(0x40080u32 & 0x40000 != 0 && 0x40180u32 & 0x40000 != 0 && 0x40000u32 & 0x40000 != 0)
        by (bit_vector);
}

/// Planned tables are created, empty and in the order of the plan, where there are none.
proof fn lemma_open_new(settings: EnvOptions, n: int)
    requires
        settings.flags.0 & crate::lmdb::MDB_RDONLY == 0,
        settings.max_dbs >= 7,
        0 <= n <= 7,
    ensures
        open_all(Seq::empty(), settings, table_plan().take(n)) matches Ok((tables, dbis))
            && tables.len() == n && dbis.len() == n && forall|i: int|
            0 <= i < n ==> (#[trigger] tables[i]).name == table_plan()[i].0 && tables[i].rows
                == Seq::<Row>::empty() && dbis[i] == Dbi(i as u32),
    decreases n,
{
    let plan = table_plan().take(n);
    if n > 0 {
        let init = plan.drop_last();
        assert(init =~= table_plan().take(n - 1));
        lemma_open_new(settings, n - 1);
        let (tables, dbis) = open_all(Seq::empty(), settings, init)->Ok_0;
        assert(plan.last() == table_plan()[n - 1]);
        lemma_plan_names();
        lemma_plan_creates();
        lemma_plan_nul_free(n - 1);
        crate::lmdb::lemma_table_named(tables, plan.last().0);
        if let Some(i) = table_named(tables, plan.last().0) {
            assert(tables[i as int].name == table_plan()[i as int].0);
        }
    }
}

/// A store over no tables opens with no rows and no attributes.
pub proof fn law_new_store(flags: EnvFlags)
    requires
        (flags.0 | crate::lmdb::MDB_NOTLS) & crate::lmdb::MDB_RDONLY == 0,
    ensures
        opened_store(Seq::empty(), flags) == Ok::<Db, Fault>(
            Db {
                ix: Indexes {
                    eav: Seq::empty(),
                    ave: Seq::empty(),
                    vae: Seq::empty(),
                    schema: Seq::empty(),
                    meta: Seq::empty(),
                    giants: Seq::empty(),
                    giant_ids: Seq::empty(),
                },
                attrs: Seq::empty(),
            },
        ),
{
    assert(loaded(Seq::empty()) =~= Seq::empty());
    assert(table_plan().take(7) =~= table_plan());
    lemma_open_new(store_settings(flags), 7);
    let (tables, dbis) = open_all(Seq::empty(), store_settings(flags), table_plan())->Ok_0;
    assert(tables[0].rows.len() == 0 && tables[1].rows.len() == 0 && tables[2].rows.len() == 0
        && tables[3].rows.len() == 0 && tables[4].rows.len() == 0 && tables[5].rows.len() == 0
        && tables[6].rows.len() == 0);
    assert(dbis[0].0 == 0 && dbis[1].0 == 1 && dbis[2].0 == 2 && dbis[3].0 == 3 && dbis[4].0 == 4
        && dbis[5].0 == 5 && dbis[6].0 == 6);
}

} // verus!
