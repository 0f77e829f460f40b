//! What the triple store holds and what each of its operations does to it.
//!
//! The state is seven tables and the list of declared attributes:
//!
//! - `eav`: `[e:8][aid:4][value]`, entity-first scans
//! - `ave`: `[aid:4][value][e:8]`, attribute/value scans
//! - `vae`: `[v:8][aid:4][e:8]`, reverse lookup for ref values
//! - `schema`: attribute name to id and properties
//! - `meta`: counters
//! - `giants`, `giant_ids`: oversized values by id, and their ids by content digest

use vstd::prelude::*;
use vstd::utf8::*;
use crate::bytes::{be_bytes, be_value, lex_lt};
use crate::codec::{
    encoding, parse, values_equal, Datum, DecodedDatum, GIANT_PREFIX, GIANT_THRESHOLD,
    TAG_GIANT_BYTES, TAG_GIANT_STR, TAG_REF,
};
use crate::lmdb::Error;
use crate::prefix::{matching, successor};
use crate::rows::{del_row, lookup, put_row, rank, Row};

verus! {

/// Attribute properties the store enforces.
#[derive(Debug, Clone, Copy, PartialEq, Eq, Structural)]
pub struct AttrProps {
    /// Cardinality-many keeps every asserted value; cardinality-one (the default) replaces the
    /// previous value on assert.
    pub cardinality_many: bool,
    /// Ref-typed attributes index their entity-id values in `vae`; the host layer coerces
    /// integer values to refs for them.
    pub ref_type: bool,
}

/// The properties of an attribute that was never declared.
pub open spec fn default_props() -> AttrProps {
    AttrProps { cardinality_many: false, ref_type: false }
}

impl Default for AttrProps {
    fn default() -> (r: Self)
        ensures
            r == default_props(),
    {
        AttrProps { cardinality_many: false, ref_type: false }
    }
}

/// Index selector for range scans.
#[derive(Clone, Copy, Debug, PartialEq, Eq, Structural)]
pub enum Index {
    Eav,
    Ave,
    Vae,
}

/// One of the seven tables.
#[derive(Clone, Copy, Debug, PartialEq, Eq, Structural)]
pub enum Part {
    Eav,
    Ave,
    Vae,
    Schema,
    Meta,
    Giants,
    GiantIds,
}

/// The rows of the seven tables.
pub struct Indexes {
    pub eav: Seq<Row>,
    pub ave: Seq<Row>,
    pub vae: Seq<Row>,
    pub schema: Seq<Row>,
    pub meta: Seq<Row>,
    pub giants: Seq<Row>,
    pub giant_ids: Seq<Row>,
}

impl Indexes {
    /// The rows of one table.
    pub open spec fn rows(self, part: Part) -> Seq<Row> {
        match part {
            Part::Eav => self.eav,
            Part::Ave => self.ave,
            Part::Vae => self.vae,
            Part::Schema => self.schema,
            Part::Meta => self.meta,
            Part::Giants => self.giants,
            Part::GiantIds => self.giant_ids,
        }
    }

    /// The tables with the rows of one replaced.
    pub open spec fn with(self, part: Part, rows: Seq<Row>) -> Indexes {
        match part {
            Part::Eav => Indexes { eav: rows, ..self },
            Part::Ave => Indexes { ave: rows, ..self },
            Part::Vae => Indexes { vae: rows, ..self },
            Part::Schema => Indexes { schema: rows, ..self },
            Part::Meta => Indexes { meta: rows, ..self },
            Part::Giants => Indexes { giants: rows, ..self },
            Part::GiantIds => Indexes { giant_ids: rows, ..self },
        }
    }

    /// The tables with `value` stored under `key` in one of them.
    pub open spec fn put(self, part: Part, key: Seq<u8>, value: Seq<u8>) -> Indexes {
        self.with(part, put_row(self.rows(part), false, key, value))
    }

    /// The tables without `key` in one of them.
    pub open spec fn del(self, part: Part, key: Seq<u8>) -> Indexes {
        self.with(part, del_row(self.rows(part), false, key, None))
    }

    /// The rows of one index.
    pub open spec fn index(self, index: Index) -> Seq<Row> {
        match index {
            Index::Eav => self.eav,
            Index::Ave => self.ave,
            Index::Vae => self.vae,
        }
    }
}

/// One declared attribute.
pub struct AttrRec {
    pub name: Seq<char>,
    pub aid: u32,
    pub props: AttrProps,
}

/// The store's state.
pub struct Db {
    pub ix: Indexes,
    pub attrs: Seq<AttrRec>,
}

impl Db {
    /// The state with `value` stored under `key` in one table.
    pub open spec fn put(self, part: Part, key: Seq<u8>, value: Seq<u8>) -> Db {
        Db { ix: self.ix.put(part, key, value), ..self }
    }
}

/// Why an operation fails.
pub enum Fault {
    Lmdb(Error),
    Codec(Seq<char>),
    MissingGiant(u64),
}

/// One datom.
pub struct DatomView {
    pub e: u64,
    pub a: Seq<char>,
    pub v: Datum,
}

/// One transaction operation.
pub enum OpView {
    Add { e: u64, a: Seq<char>, v: Datum },
    Retract { e: u64, a: Seq<char>, v: Datum },
}

// ---------------------------------------------------------------------------
// Keys
// ---------------------------------------------------------------------------

pub open spec fn eav_key(e: u64, aid: u32, venc: Seq<u8>) -> Seq<u8> {
    be_bytes(e as nat, 8) + be_bytes(aid as nat, 4) + venc
}

pub open spec fn ave_key(aid: u32, venc: Seq<u8>, e: u64) -> Seq<u8> {
    be_bytes(aid as nat, 4) + venc + be_bytes(e as nat, 8)
}

pub open spec fn vae_key(target: u64, aid: u32, e: u64) -> Seq<u8> {
    be_bytes(target as nat, 8) + be_bytes(aid as nat, 4) + be_bytes(e as nat, 8)
}

/// The meta key of the largest entity id ever asserted.
pub open spec fn meta_max_eid() -> Seq<u8> {
    encode_utf8("max-eid"@)
}

/// The meta key of the attribute counter.
pub open spec fn meta_next_aid() -> Seq<u8> {
    encode_utf8("next-aid"@)
}

/// The meta key of the giant counter.
pub open spec fn meta_next_giant() -> Seq<u8> {
    encode_utf8("next-giant"@)
}

// ---------------------------------------------------------------------------
// Attributes and counters
// ---------------------------------------------------------------------------

/// The id and properties of an attribute.
pub open spec fn find_attr(attrs: Seq<AttrRec>, name: Seq<char>) -> Option<(u32, AttrProps)>
    decreases attrs.len(),
{
    if attrs.len() == 0 {
        None
    } else if attrs.last().name == name {
        Some((attrs.last().aid, attrs.last().props))
    } else {
        find_attr(attrs.drop_last(), name)
    }
}

/// The name of the attribute that took the id last.
pub open spec fn aid_name(attrs: Seq<AttrRec>, aid: u32) -> Option<Seq<char>>
    decreases attrs.len(),
{
    if attrs.len() == 0 {
        None
    } else if attrs.last().aid == aid {
        Some(attrs.last().name)
    } else {
        aid_name(attrs.drop_last(), aid)
    }
}

/// The attributes but for the one with this name.
pub open spec fn without_attr(attrs: Seq<AttrRec>, name: Seq<char>) -> Seq<AttrRec>
    decreases attrs.len(),
{
    if attrs.len() == 0 {
        Seq::empty()
    } else if attrs.last().name == name {
        without_attr(attrs.drop_last(), name)
    } else {
        without_attr(attrs.drop_last(), name).push(attrs.last())
    }
}

/// The attributes with one declared anew.
pub open spec fn set_attr_rec(attrs: Seq<AttrRec>, rec: AttrRec) -> Seq<AttrRec> {
    without_attr(attrs, rec.name).push(rec)
}

/// No name is declared twice.
pub open spec fn unique_names(attrs: Seq<AttrRec>) -> bool {
    forall|i: int, j: int| #![trigger attrs[i], attrs[j]]
        0 <= i < j < attrs.len() ==> attrs[i].name != attrs[j].name
}

/// The properties as one byte.
pub open spec fn props_byte(props: AttrProps) -> u8 {
    ((if props.cardinality_many {
        1int
    } else {
        0
    }) + (if props.ref_type {
        2int
    } else {
        0
    })) as u8
}

/// The properties that a byte stands for: bit 0 and bit 1.
pub open spec fn byte_props(b: u8) -> AttrProps {
    AttrProps { cardinality_many: b % 2 == 1, ref_type: (b / 2) % 2 == 1 }
}

/// An attribute's schema entry.
pub open spec fn attr_record(aid: u32, props: AttrProps) -> Seq<u8> {
    be_bytes(aid as nat, 4).push(props_byte(props))
}

/// The attribute that one schema row declares.
pub open spec fn schema_attr(row: Row) -> Result<AttrRec, Fault> {
    if !valid_utf8(row.0) {
        Err(Fault::Codec("schema attr not utf8"@))
    } else if row.1.len() < 5 {
        Err(Fault::Codec("short schema entry"@))
    } else {
        Ok(
            AttrRec {
                name: decode_utf8(row.0),
                aid: be_value(row.1.take(4)) as u32,
                props: byte_props(row.1[4]),
            },
        )
    }
}

/// The attributes that the schema rows declare, read in order.
pub open spec fn read_schema(rows: Seq<Row>) -> Result<Seq<AttrRec>, Fault>
    decreases rows.len(),
{
    if rows.len() == 0 {
        Ok(Seq::empty())
    } else {
        match read_schema(rows.drop_last()) {
            Err(f) => Err(f),
            Ok(attrs) => match schema_attr(rows.last()) {
                Err(f) => Err(f),
                Ok(rec) => Ok(set_attr_rec(attrs, rec)),
            },
        }
    }
}

/// A counter's value; an absent one stands at zero.
pub open spec fn counter(meta: Seq<Row>, key: Seq<u8>) -> Result<nat, Fault> {
    match lookup(meta, key) {
        None => Ok(0),
        Some(b) => if b.len() == 8 {
            Ok(be_value(b))
        } else {
            Err(Fault::Codec("bad meta counter"@))
        },
    }
}

/// Raise a counter by one; gives its new value.
pub open spec fn bump(db: Db, key: Seq<u8>) -> Result<(Db, nat), Fault> {
    match counter(db.ix.meta, key) {
        Err(f) => Err(f),
        Ok(n) => Ok((db.put(Part::Meta, key, be_bytes(n + 1, 8)), n + 1)),
    }
}

/// Both counters can rise by `n` more.
pub open spec fn room(meta: Seq<Row>, n: nat) -> bool {
    &&& counter(meta, meta_next_aid()) matches Ok(c) ==> c + n <= u64::MAX
    &&& counter(meta, meta_next_giant()) matches Ok(c) ==> c + n <= u64::MAX
}

/// The largest entity id ever asserted, as the meta table has it.
pub open spec fn stored_max_eid(meta: Seq<Row>) -> u64 {
    match lookup(meta, meta_max_eid()) {
        None => 0,
        Some(b) => if b.len() == 8 {
            be_value(b) as u64
        } else {
            0
        },
    }
}

/// The state with an attribute declared.
pub open spec fn declare(db: Db, name: Seq<char>, aid: u32, props: AttrProps) -> Db {
    Db {
        ix: db.ix.put(Part::Schema, encode_utf8(name), attr_record(aid, props)),
        attrs: set_attr_rec(db.attrs, AttrRec { name, aid, props }),
    }
}

/// Find an attribute or give it the next id; `props` declares its properties anew.
pub open spec fn intern(db: Db, name: Seq<char>, props: Option<AttrProps>) -> Result<
    (Db, u32, AttrProps),
    Fault,
> {
    match (find_attr(db.attrs, name), props) {
        (Some((aid, current)), None) => Ok((db, aid, current)),
        (Some((aid, _)), Some(p)) => Ok((declare(db, name, aid, p), aid, p)),
        (None, p) => match bump(db, meta_next_aid()) {
            Err(f) => Err(f),
            Ok((next, n)) => {
                let aid = (n % 0x1_0000_0000) as u32;
                let p = match p {
                    Some(p) => p,
                    None => default_props(),
                };
                Ok((declare(next, name, aid, p), aid, p))
            },
        },
    }
}

// ---------------------------------------------------------------------------
// Values in keys
// ---------------------------------------------------------------------------

/// The SHA-256 digest of `raw`.
pub uninterp spec fn sha256_digest(raw: Seq<u8>) -> Seq<u8>;

/// The giant tag and raw bytes of a value that may overflow to the giants table.
pub open spec fn giant_raw(v: Datum) -> Option<(u8, Seq<u8>)> {
    match v {
        Datum::Str(s) => Some((TAG_GIANT_STR, encode_utf8(s))),
        Datum::Bytes(b) => Some((TAG_GIANT_BYTES, b)),
        _ => None,
    }
}

/// A giant's key: the tag, the first raw bytes and the id.
pub open spec fn giant_key(tag: u8, raw: Seq<u8>, id: nat) -> Seq<u8> {
    seq![tag] + raw.take(GIANT_PREFIX as int) + be_bytes(id, 8)
}

/// The key form of a value that is about to be stored: its encoding, or for an oversized value
/// its giant key, with the giant stored where its content is new.
pub open spec fn write_key(db: Db, v: Datum) -> Result<(Db, Seq<u8>), Fault> {
    if encoding(v).len() <= GIANT_THRESHOLD {
        Ok((db, encoding(v)))
    } else {
        match giant_raw(v) {
            None => Err(Fault::Codec("only strings and bytes can be giant"@)),
            Some((tag, raw)) => match lookup(db.ix.giant_ids, sha256_digest(raw)) {
                Some(id) => if id.len() == 8 {
                    Ok((db, giant_key(tag, raw, be_value(id))))
                } else {
                    Err(Fault::Codec("bad giant id"@))
                },
                None => match bump(db, meta_next_giant()) {
                    Err(f) => Err(f),
                    Ok((next, id)) => Ok(
                        (
                            next.put(Part::Giants, be_bytes(id, 8), seq![tag] + raw).put(
                                Part::GiantIds,
                                sha256_digest(raw),
                                be_bytes(id, 8),
                            ),
                            giant_key(tag, raw, id),
                        ),
                    ),
                },
            },
        }
    }
}

/// The key form of a value for lookup: a giant that was never stored gets id 0, which no giant
/// has.
pub open spec fn read_key(ix: Indexes, v: Datum) -> Result<Seq<u8>, Fault> {
    if encoding(v).len() <= GIANT_THRESHOLD {
        Ok(encoding(v))
    } else {
        match giant_raw(v) {
            None => Err(Fault::Codec("only strings and bytes can be giant"@)),
            Some((tag, raw)) => match lookup(ix.giant_ids, sha256_digest(raw)) {
                Some(id) => if id.len() == 8 {
                    Ok(giant_key(tag, raw, be_value(id)))
                } else {
                    Err(Fault::Codec("bad giant id"@))
                },
                None => Ok(giant_key(tag, raw, 0)),
            },
        }
    }
}

/// The value at the front of `bytes`, giants resolved, and how many bytes it takes.
pub open spec fn resolve(ix: Indexes, bytes: Seq<u8>) -> Result<(Datum, nat), Fault> {
    match parse(bytes) {
        Err(m) => Err(Fault::Codec(m)),
        Ok((DecodedDatum::Value(v), used)) => Ok((v, used)),
        Ok((DecodedDatum::Giant { tag, id }, used)) => match lookup(ix.giants, be_bytes(id, 8)) {
            None => Err(Fault::MissingGiant(id as u64)),
            Some(stored) => if stored.len() == 0 {
                Err(Fault::Codec("empty giant"@))
            } else if tag != TAG_GIANT_STR {
                Ok((Datum::Bytes(stored.skip(1)), used))
            } else if valid_utf8(stored.skip(1)) {
                Ok((Datum::Str(decode_utf8(stored.skip(1))), used))
            } else {
                Err(Fault::Codec("giant not utf8"@))
            },
        },
    }
}

// ---------------------------------------------------------------------------
// Writing
// ---------------------------------------------------------------------------

/// The indexes with a datom.
pub open spec fn insert_datom(ix: Indexes, e: u64, aid: u32, venc: Seq<u8>, v: Datum) -> Indexes {
    let both = ix.put(Part::Eav, eav_key(e, aid, venc), Seq::empty()).put(
        Part::Ave,
        ave_key(aid, venc, e),
        Seq::empty(),
    );
    match v {
        Datum::Ref(target) => both.put(Part::Vae, vae_key(target, aid, e), Seq::empty()),
        _ => both,
    }
}

/// The indexes without a datom.
pub open spec fn delete_datom(ix: Indexes, e: u64, aid: u32, venc: Seq<u8>, v: Datum) -> Indexes {
    let both = ix.del(Part::Eav, eav_key(e, aid, venc)).del(Part::Ave, ave_key(aid, venc, e));
    match v {
        Datum::Ref(target) => both.del(Part::Vae, vae_key(target, aid, e)),
        _ => both,
    }
}

/// The ref that an encoded value is, if it is one.
pub open spec fn encoded_ref(venc: Seq<u8>) -> Option<u64> {
    if venc.len() > 0 && venc[0] == TAG_REF {
        match parse(venc) {
            Ok((DecodedDatum::Value(Datum::Ref(target)), _)) => Some(target),
            _ => None,
        }
    } else {
        None
    }
}

/// The indexes without a datom that is known by its encoded value.
pub open spec fn delete_encoded(ix: Indexes, e: u64, aid: u32, venc: Seq<u8>) -> Indexes {
    let both = ix.del(Part::Eav, eav_key(e, aid, venc)).del(Part::Ave, ave_key(aid, venc, e));
    match encoded_ref(venc) {
        Some(target) => both.del(Part::Vae, vae_key(target, aid, e)),
        None => both,
    }
}

/// All encoded values asserted for an entity and attribute.
pub open spec fn entity_values(eav: Seq<Row>, e: u64, aid: u32) -> Seq<Seq<u8>> {
    let rows = matching(eav, be_bytes(e as nat, 8) + be_bytes(aid as nat, 4));
    Seq::new(rows.len(), |i: int| rows[i].0.skip(12))
}

/// The indexes without the datoms of one entity and attribute that have the given values.
pub open spec fn delete_all(ix: Indexes, e: u64, aid: u32, values: Seq<Seq<u8>>) -> Indexes
    decreases values.len(),
{
    if values.len() == 0 {
        ix
    } else {
        delete_encoded(delete_all(ix, e, aid, values.drop_last()), e, aid, values.last())
    }
}

/// Apply one operation. A cardinality-one add replaces the previous value; a retract of an
/// absent datom changes no index.
#[verifier::opaque]
pub open spec fn apply(db: Db, op: OpView) -> Result<Db, Fault> {
    match op {
        OpView::Add { e, a, v } => match intern(db, a, None) {
            Err(f) => Err(f),
            Ok((named, aid, props)) => {
                let cleared = if props.cardinality_many {
                    named
                } else {
                    Db {
                        ix: delete_all(named.ix, e, aid, entity_values(named.ix.eav, e, aid)),
                        ..named
                    }
                };
                match write_key(cleared, v) {
                    Err(f) => Err(f),
                    Ok((keyed, venc)) => Ok(
                        Db { ix: insert_datom(keyed.ix, e, aid, venc, v), ..keyed },
                    ),
                }
            },
        },
        OpView::Retract { e, a, v } => match intern(db, a, None) {
            Err(f) => Err(f),
            Ok((named, aid, _)) => match write_key(named, v) {
                Err(f) => Err(f),
                Ok((keyed, venc)) => Ok(Db { ix: delete_datom(keyed.ix, e, aid, venc, v), ..keyed }),
            },
        },
    }
}

/// Apply operations one after the other.
pub open spec fn apply_all(db: Db, ops: Seq<OpView>) -> Result<Db, Fault>
    decreases ops.len(),
{
    if ops.len() == 0 {
        Ok(db)
    } else {
        match apply_all(db, ops.drop_last()) {
            Err(f) => Err(f),
            Ok(next) => apply(next, ops.last()),
        }
    }
}

/// The largest of `start` and the entity ids that are added.
pub open spec fn max_added(start: u64, ops: Seq<OpView>) -> u64
    decreases ops.len(),
{
    if ops.len() == 0 {
        start
    } else {
        let before = max_added(start, ops.drop_last());
        match ops.last() {
            OpView::Add { e, .. } => if e > before {
                e
            } else {
                before
            },
            _ => before,
        }
    }
}

/// Apply operations atomically.
pub open spec fn transacted(db: Db, ops: Seq<OpView>) -> Result<Db, Fault> {
    match apply_all(db, ops) {
        Err(f) => Err(f),
        Ok(next) => Ok(
            next.put(
                Part::Meta,
                meta_max_eid(),
                be_bytes(max_added(stored_max_eid(db.ix.meta), ops) as nat, 8),
            ),
        ),
    }
}

// ---------------------------------------------------------------------------
// Reading
// ---------------------------------------------------------------------------

/// The name of an attribute id that an index holds.
pub open spec fn index_name(attrs: Seq<AttrRec>, aid: nat) -> Result<Seq<char>, Fault> {
    match aid_name(attrs, aid as u32) {
        Some(name) => Ok(name),
        None => Err(Fault::Codec("unknown aid in index"@)),
    }
}

/// The datom that an index key stands for.
pub open spec fn entry_datom(db: Db, index: Index, k: Seq<u8>) -> Result<DatomView, Fault> {
    match index {
        Index::Eav => if k.len() < 12 {
            Err(Fault::Codec("short eav key"@))
        } else {
            match resolve(db.ix, k.skip(12)) {
                Err(f) => Err(f),
                Ok((v, _)) => match index_name(db.attrs, be_value(k.subrange(8, 12))) {
                    Err(f) => Err(f),
                    Ok(a) => Ok(DatomView { e: be_value(k.take(8)) as u64, a, v }),
                },
            }
        },
        Index::Ave => if k.len() < 4 {
            Err(Fault::Codec("short ave key"@))
        } else {
            match resolve(db.ix, k.skip(4)) {
                Err(f) => Err(f),
                Ok((v, used)) => if k.len() < 4 + used + 8 {
                    Err(Fault::Codec("short ave key"@))
                } else {
                    match index_name(db.attrs, be_value(k.take(4))) {
                        Err(f) => Err(f),
                        Ok(a) => Ok(
                            DatomView {
                                e: be_value(k.subrange(4 + used as int, 12 + used as int)) as u64,
                                a,
                                v,
                            },
                        ),
                    }
                },
            }
        },
        Index::Vae => if k.len() < 20 {
            Err(Fault::Codec("short vae key"@))
        } else {
            match index_name(db.attrs, be_value(k.subrange(8, 12))) {
                Err(f) => Err(f),
                Ok(a) => Ok(
                    DatomView {
                        e: be_value(k.subrange(12, 20)) as u64,
                        a,
                        v: Datum::Ref(be_value(k.take(8)) as u64),
                    },
                ),
            }
        },
    }
}

/// The datoms of the rows, in order, or the first fault among them.
pub open spec fn entry_datoms(db: Db, index: Index, rows: Seq<Row>) -> Result<Seq<DatomView>, Fault>
    decreases rows.len(),
{
    if rows.len() == 0 {
        Ok(Seq::empty())
    } else {
        match entry_datoms(db, index, rows.drop_last()) {
            Err(f) => Err(f),
            Ok(before) => match entry_datom(db, index, rows.last().0) {
                Err(f) => Err(f),
                Ok(d) => Ok(before.push(d)),
            },
        }
    }
}

/// The datoms of an index whose keys start with `prefix`.
pub open spec fn scan(db: Db, index: Index, prefix: Seq<u8>) -> Result<Seq<DatomView>, Fault> {
    entry_datoms(db, index, matching(db.ix.index(index), prefix))
}

/// The datoms with this value.
pub open spec fn having_value(ds: Seq<DatomView>, v: Datum) -> Seq<DatomView>
    decreases ds.len(),
{
    if ds.len() == 0 {
        Seq::empty()
    } else if values_equal(ds.last().v, v) {
        having_value(ds.drop_last(), v).push(ds.last())
    } else {
        having_value(ds.drop_last(), v)
    }
}

/// Keep the datoms with this value.
pub open spec fn keep_value(r: Result<Seq<DatomView>, Fault>, v: Option<Datum>) -> Result<
    Seq<DatomView>,
    Fault,
> {
    match (r, v) {
        (Ok(ds), Some(want)) => Ok(having_value(ds, want)),
        _ => r,
    }
}

/// The key form of an optional value, empty where there is none.
pub open spec fn read_opt_key(ix: Indexes, v: Option<Datum>) -> Result<Seq<u8>, Fault> {
    match v {
        None => Ok(Seq::empty()),
        Some(value) => read_key(ix, value),
    }
}

/// Datoms matching the pattern; `None` components are wildcards. Bound `e` scans `eav`, bound `a`
/// scans `ave`, a bound ref value scans `vae`, and the empty pattern scans everything.
pub open spec fn searched(db: Db, e: Option<u64>, a: Option<Seq<char>>, v: Option<Datum>) -> Result<
    Seq<DatomView>,
    Fault,
> {
    let aid = match a {
        Some(name) => find_attr(db.attrs, name),
        None => None,
    };
    if a is Some && aid is None {
        Ok(Seq::empty())
    } else {
        match read_opt_key(db.ix, v) {
            Err(f) => Err(f),
            Ok(venc) => match (e, aid) {
                (Some(e), Some((aid, _))) => scan(db, Index::Eav, eav_key(e, aid, venc)),
                (Some(e), None) => keep_value(scan(db, Index::Eav, be_bytes(e as nat, 8)), v),
                (None, Some((aid, _))) => scan(db, Index::Ave, be_bytes(aid as nat, 4) + venc),
                (None, None) => match v {
                    Some(Datum::Ref(target)) => scan(
                        db,
                        Index::Vae,
                        be_bytes(target as nat, 8),
                    ),
                    _ => keep_value(scan(db, Index::Eav, Seq::empty()), v),
                },
            },
        }
    }
}

/// How many datoms match the pattern: one index range where the pattern is one, else the
/// datoms that a search finds.
pub open spec fn counted(db: Db, e: Option<u64>, a: Option<Seq<char>>, v: Option<Datum>) -> Result<
    nat,
    Fault,
> {
    match a {
        Some(name) => match find_attr(db.attrs, name) {
            None => Ok(0),
            Some((aid, _)) => match read_opt_key(db.ix, v) {
                Err(f) => Err(f),
                Ok(venc) => Ok(
                    match e {
                        Some(e) => matching(db.ix.eav, eav_key(e, aid, venc)).len(),
                        None => matching(db.ix.ave, be_bytes(aid as nat, 4) + venc).len(),
                    },
                ),
            },
        },
        None => match (e, v) {
            (Some(e), None) => Ok(matching(db.ix.eav, be_bytes(e as nat, 8)).len()),
            (None, Some(Datum::Ref(target))) => Ok(
                matching(db.ix.vae, be_bytes(target as nat, 8)).len(),
            ),
            (None, None) => Ok(db.ix.eav.len()),
            _ => match searched(db, e, a, v) {
                Err(f) => Err(f),
                Ok(ds) => Ok(ds.len()),
            },
        },
    }
}

/// The datom that a sampled `ave` row of attribute `a` stands for.
pub open spec fn sample_datom(ix: Indexes, a: Seq<char>, k: Seq<u8>) -> Result<DatomView, Fault> {
    match resolve(ix, k.skip(4)) {
        Err(f) => Err(f),
        Ok((v, used)) => if k.len() < 4 + used + 8 {
            Err(Fault::Codec("short ave key"@))
        } else {
            Ok(
                DatomView {
                    e: be_value(k.subrange(4 + used as int, 12 + used as int)) as u64,
                    a,
                    v,
                },
            )
        },
    }
}

/// The first `i` of `take` samples spread evenly over the rows.
pub open spec fn samples(ix: Indexes, a: Seq<char>, rows: Seq<Row>, take: nat, i: nat) -> Result<
    Seq<DatomView>,
    Fault,
>
    decreases i,
{
    if i == 0 {
        Ok(Seq::empty())
    } else {
        match samples(ix, a, rows, take, (i - 1) as nat) {
            Err(f) => Err(f),
            Ok(before) => match sample_datom(
                ix,
                a,
                rows[(((i - 1) * rows.len()) / (take as int)) as int].0,
            ) {
                Err(f) => Err(f),
                Ok(d) => Ok(before.push(d)),
            },
        }
    }
}

/// Up to `n` datoms evenly rank-sampled from an attribute's `ave` range.
pub open spec fn sampled(db: Db, a: Seq<char>, n: u64) -> Result<Seq<DatomView>, Fault> {
    match find_attr(db.attrs, a) {
        None => Ok(Seq::empty()),
        Some((aid, _)) => {
            let rows = matching(db.ix.ave, be_bytes(aid as nat, 4));
            if rows.len() == 0 || n == 0 {
                Ok(Seq::empty())
            } else {
                let take = if (n as nat) < rows.len() {
                    n as nat
                } else {
                    rows.len()
                };
                samples(db.ix, a, rows, take, take)
            }
        },
    }
}

/// A partial-datom range bound.
pub struct BoundView {
    pub e: Option<u64>,
    pub a: Option<Seq<char>>,
    pub v: Option<Datum>,
    pub closed: bool,
}

/// The key prefix of a bound's components, which must be contiguous from the index's
/// most-significant position; `None` where the bound names an unknown attribute.
pub open spec fn bound_prefix(db: Db, index: Index, b: BoundView) -> Result<
    Option<Seq<u8>>,
    Fault,
> {
    let aid = match b.a {
        Some(name) => find_attr(db.attrs, name),
        None => None,
    };
    match index {
        Index::Eav => match (b.e, b.a, b.v) {
            (None, None, None) => Ok(Some(Seq::empty())),
            (None, _, _) => Err(Fault::Codec("eav bound has a/v without e"@)),
            (Some(e), None, None) => Ok(Some(be_bytes(e as nat, 8))),
            (Some(_), None, Some(_)) => Err(Fault::Codec("eav bound has v without a"@)),
            (Some(e), Some(_), v) => match aid {
                None => Ok(None),
                Some((aid, _)) => match read_opt_key(db.ix, v) {
                    Err(f) => Err(f),
                    Ok(venc) => Ok(Some(eav_key(e, aid, venc))),
                },
            },
        },
        Index::Ave => match (b.a, b.v, b.e) {
            (None, None, None) => Ok(Some(Seq::empty())),
            (None, _, _) => Err(Fault::Codec("ave bound has v/e without a"@)),
            (Some(_), v, e) => match aid {
                None => Ok(None),
                Some((aid, _)) => match (v, e) {
                    (None, None) => Ok(Some(be_bytes(aid as nat, 4))),
                    (None, Some(_)) => Err(Fault::Codec("ave bound has e without v"@)),
                    (Some(v), e) => match read_key(db.ix, v) {
                        Err(f) => Err(f),
                        Ok(venc) => Ok(
                            Some(
                                match e {
                                    Some(e) => ave_key(aid, venc, e),
                                    None => be_bytes(aid as nat, 4) + venc,
                                },
                            ),
                        ),
                    },
                },
            },
        },
        Index::Vae => match b.v {
            Some(Datum::Ref(target)) => match (b.a, b.e) {
                (None, None) => Ok(Some(be_bytes(target as nat, 8))),
                (None, Some(_)) => Err(Fault::Codec("vae bound has e without a"@)),
                (Some(_), e) => match aid {
                    None => Ok(None),
                    Some((aid, _)) => Ok(
                        Some(
                            match e {
                                Some(e) => vae_key(target, aid, e),
                                None => be_bytes(target as nat, 8) + be_bytes(aid as nat, 4),
                            },
                        ),
                    ),
                },
            },
            Some(_) => Err(Fault::Codec("vae bound v must be a ref"@)),
            None => if b.a is Some || b.e is Some {
                Err(Fault::Codec("vae bound has a/e without v"@))
            } else {
                Ok(Some(Seq::empty()))
            },
        },
    }
}

/// The byte range of a bound pair, from the first key up to but without the second; `None` where
/// it is provably empty.
pub open spec fn key_range(db: Db, index: Index, low: BoundView, high: BoundView) -> Result<
    Option<(Seq<u8>, Option<Seq<u8>>)>,
    Fault,
> {
    match bound_prefix(db, index, low) {
        Err(f) => Err(f),
        Ok(None) => Ok(None),
        Ok(Some(lo)) => match bound_prefix(db, index, high) {
            Err(f) => Err(f),
            Ok(None) => Ok(None),
            Ok(Some(hi)) => {
                let lo_key = if low.closed || lo.len() == 0 {
                    Some(lo)
                } else {
                    successor(lo)
                };
                let hi_key = if hi.len() == 0 {
                    None
                } else if high.closed {
                    successor(hi)
                } else {
                    Some(hi)
                };
                Ok(
                    match (lo_key, hi_key) {
                        (None, _) => None,
                        (Some(lo_key), Some(hi_key)) => if lex_lt(lo_key, hi_key) {
                            Some((lo_key, Some(hi_key)))
                        } else {
                            None
                        },
                        (Some(lo_key), None) => Some((lo_key, None)),
                    },
                )
            },
        },
    }
}

/// The rows of a byte range.
pub open spec fn range_rows(rows: Seq<Row>, range: Option<(Seq<u8>, Option<Seq<u8>>)>) -> Seq<Row> {
    match range {
        None => Seq::empty(),
        Some((lo, hi)) => {
            let from = rank(rows, lo) as int;
            let to = match hi {
                Some(hi) => rank(rows, hi) as int,
                None => rows.len() as int,
            };
            if from < to {
                rows.subrange(from, to)
            } else {
                Seq::empty()
            }
        },
    }
}

/// At most `limit` rows from the front.
pub open spec fn limited(rows: Seq<Row>, limit: Option<nat>) -> Seq<Row> {
    match limit {
        Some(n) => if n < rows.len() {
            rows.take(n as int)
        } else {
            rows
        },
        None => rows,
    }
}

/// Ordered datoms within an index range, `reverse` from the high end, `limit` of them at most.
pub open spec fn sliced(
    db: Db,
    index: Index,
    low: BoundView,
    high: BoundView,
    limit: Option<nat>,
    reverse: bool,
) -> Result<Seq<DatomView>, Fault> {
    if limit == Some(0nat) {
        Ok(Seq::empty())
    } else {
        match key_range(db, index, low, high) {
            Err(f) => Err(f),
            Ok(range) => {
                let rows = range_rows(db.ix.index(index), range);
                entry_datoms(
                    db,
                    index,
                    limited(
                        if reverse {
                            rows.reverse()
                        } else {
                            rows
                        },
                        limit,
                    ),
                )
            },
        }
    }
}

/// How many datoms lie within an index range.
pub open spec fn range_counted(db: Db, index: Index, low: BoundView, high: BoundView) -> Result<
    nat,
    Fault,
> {
    match key_range(db, index, low, high) {
        Err(f) => Err(f),
        Ok(range) => Ok(range_rows(db.ix.index(index), range).len()),
    }
}

/// The smallest entity id at or above `from` that has any datom.
pub open spec fn next_entity(eav: Seq<Row>, from: u64) -> Result<Option<u64>, Fault> {
    let at = rank(eav, be_bytes(from as nat, 8)) as int;
    if at >= eav.len() {
        Ok(None)
    } else if eav[at].0.len() < 8 {
        Err(Fault::Codec("short eav key"@))
    } else {
        Ok(Some(be_value(eav[at].0.take(8)) as u64))
    }
}

} // verus!
