//! Order-preserving byte encoding for datom components.
//!
//! Every value encodes to bytes whose lexicographic order equals the value order. The encoding
//! is prefix-free, so an encoded value can sit in the middle of a composite key and still parse
//! and sort correctly. Values of different types never interleave: the tag byte orders the types.

use vstd::prelude::*;
use vstd::utf8::*;
use crate::bytes::{be_bytes, be_value, lex_lt, splits_at, splits_below};
use crate::bytes::{bytes_copy, push_bytes, push_u64, read_u64, same_bytes};
use crate::bytes::{
    lemma_be_len, lemma_be_order, lemma_be_round_trip, lemma_lex_irreflexive, lemma_lex_total,
    lemma_pow256_8, lemma_split_extend, lemma_split_orders, lemma_split_prefix,
};
use crate::text::{lemma_utf8_injective, same_text, text_from_utf8};

verus! {

/// One storable datom value.
#[derive(Debug)]
pub enum StoreValue {
    Bool(bool),
    Long(i64),
    /// A double, held as its IEEE 754 bit pattern.
    Double(u64),
    /// Epoch milliseconds; sorts with longs of its own tag.
    Instant(i64),
    Str(String),
    Keyword(String),
    Uuid([u8; 16]),
    /// An entity id, indexed in `vae` for reverse lookup.
    Ref(u64),
    Bytes(Vec<u8>),
    /// A heterogeneous tuple; sorts element-wise, shorter prefixes first.
    Vec(Vec<StoreValue>),
}

/// What a [`StoreValue`] holds.
pub enum Datum {
    Bool(bool),
    Long(i64),
    Double(u64),
    Instant(i64),
    Str(Seq<char>),
    Keyword(Seq<char>),
    Uuid(Seq<u8>),
    Ref(u64),
    Bytes(Seq<u8>),
    Vec(Seq<Datum>),
}

impl StoreValue {
    /// What the value holds.
    pub open spec fn view(&self) -> Datum
        decreases self,
    {
        match self {
            StoreValue::Bool(b) => Datum::Bool(*b),
            StoreValue::Long(n) => Datum::Long(*n),
            StoreValue::Double(d) => Datum::Double(*d),
            StoreValue::Instant(n) => Datum::Instant(*n),
            StoreValue::Str(s) => Datum::Str(s@),
            StoreValue::Keyword(s) => Datum::Keyword(s@),
            StoreValue::Uuid(b) => Datum::Uuid(b@),
            StoreValue::Ref(e) => Datum::Ref(*e),
            StoreValue::Bytes(b) => Datum::Bytes(b@),
            StoreValue::Vec(items) => Datum::Vec(
                Seq::new(
                    items@.len(),
                    |i: int|
                        if 0 <= i < items@.len() {
                            items@[i].view()
                        } else {
                            arbitrary()
                        },
                ),
            ),
        }
    }
}

/// What each value of `items` holds.
pub open spec fn data(items: Seq<StoreValue>) -> Seq<Datum> {
    Seq::new(items.len(), |i: int| items[i].view())
}

/// The view of a vector is the views of its elements.
pub proof fn lemma_vec_view(items: Vec<StoreValue>)
    ensures
        StoreValue::Vec(items).view() == Datum::Vec(data(items@)),
{
    let v = StoreValue::Vec(items);
    assert(v.view()->Vec_0 =~= data(items@));
}

impl Clone for StoreValue {
    fn clone(&self) -> (r: Self)
        ensures
            r.view() == self.view(),
        decreases self,
    {
        match self {
            StoreValue::Bool(b) => StoreValue::Bool(*b),
            StoreValue::Long(n) => StoreValue::Long(*n),
            StoreValue::Double(d) => StoreValue::Double(*d),
            StoreValue::Instant(n) => StoreValue::Instant(*n),
            StoreValue::Str(s) => StoreValue::Str(s.clone()),
            StoreValue::Keyword(s) => StoreValue::Keyword(s.clone()),
            StoreValue::Uuid(b) => StoreValue::Uuid(*b),
            StoreValue::Ref(e) => StoreValue::Ref(*e),
            StoreValue::Bytes(b) => StoreValue::Bytes(bytes_copy(b.as_slice())),
            StoreValue::Vec(items) => {
                let mut r: Vec<StoreValue> = Vec::new();
                let mut i: usize = 0;
                while i < items.len()
                    invariant
                        i <= items.len(),
                        self matches StoreValue::Vec(own) && own == *items,
                        r@.len() == i,
                        forall|j: int| 0 <= j < i ==> (#[trigger] r@[j]).view() == items@[j].view(),
                    decreases items.len() - i,
                {
                    assert(decreases_to!(self => items@[i as int]));
                    r.push(items[i].clone());
                    i = i + 1;
                }
                proof {
                    lemma_vec_view(*items);
                    lemma_vec_view(r);
                    assert(data(r@) =~= data(items@));
                }
                StoreValue::Vec(r)
            },
        }
    }
}

/// The bit pattern is a NaN's.
pub open spec fn double_is_nan(bits: u64) -> bool {
    bits % 0x8000_0000_0000_0000 > 0x7FF0_0000_0000_0000
}

/// Two doubles are equal as numbers: never with a NaN, and the two zeros are equal.
pub open spec fn doubles_equal(a: u64, b: u64) -> bool {
    &&& !double_is_nan(a)
    &&& !double_is_nan(b)
    &&& a == b || (a % 0x8000_0000_0000_0000 == 0 && b % 0x8000_0000_0000_0000 == 0)
}

/// Two values are equal: the same type and the same content, doubles compared as numbers.
pub open spec fn values_equal(a: Datum, b: Datum) -> bool
    decreases a,
{
    match (a, b) {
        (Datum::Double(x), Datum::Double(y)) => doubles_equal(x, y),
        (Datum::Vec(x), Datum::Vec(y)) => x.len() == y.len() && forall|i: int|
            0 <= i < x.len() ==> values_equal(#[trigger] x[i], y[i]),
        _ => a == b,
    }
}

/// Whether two doubles are equal as numbers.
pub fn same_double(a: u64, b: u64) -> (r: bool)
    ensures
        r == doubles_equal(a, b),
{
    let x: u64 = a % 0x8000_0000_0000_0000;
    let y: u64 = b % 0x8000_0000_0000_0000;
    x <= 0x7FF0_0000_0000_0000 && y <= 0x7FF0_0000_0000_0000 && (a == b || (x == 0 && y == 0))
}

/// Whether two values are equal.
pub fn same_value(a: &StoreValue, b: &StoreValue) -> (r: bool)
    ensures
        r == values_equal(a.view(), b.view()),
    decreases a,
{
    match (a, b) {
        (StoreValue::Bool(x), StoreValue::Bool(y)) => *x == *y,
        (StoreValue::Long(x), StoreValue::Long(y)) => *x == *y,
        (StoreValue::Double(x), StoreValue::Double(y)) => same_double(*x, *y),
        (StoreValue::Instant(x), StoreValue::Instant(y)) => *x == *y,
        (StoreValue::Str(x), StoreValue::Str(y)) => same_text(x.as_str(), y.as_str()),
        (StoreValue::Keyword(x), StoreValue::Keyword(y)) => same_text(x.as_str(), y.as_str()),
        (StoreValue::Uuid(x), StoreValue::Uuid(y)) => same_bytes(x.as_slice(), y.as_slice()),
        (StoreValue::Ref(x), StoreValue::Ref(y)) => *x == *y,
        (StoreValue::Bytes(x), StoreValue::Bytes(y)) => same_bytes(x.as_slice(), y.as_slice()),
        (StoreValue::Vec(x), StoreValue::Vec(y)) => {
            proof {
                lemma_vec_view(*x);
                lemma_vec_view(*y);
            }
            if x.len() != y.len() {
                return false;
            }
            let mut i: usize = 0;
            while i < x.len()
                invariant
                    i <= x.len(),
                    x.len() == y.len(),
                    a matches StoreValue::Vec(own) && own == *x,
                    a.view() == Datum::Vec(data(x@)),
                    b.view() == Datum::Vec(data(y@)),
                    forall|j: int| 0 <= j < i ==> values_equal(
                        #[trigger] data(x@)[j],
                        data(y@)[j],
                    ),
                decreases x.len() - i,
            {
                assert(decreases_to!(a => x@[i as int]));
                if !same_value(&x[i], &y[i]) {
                    assert(!values_equal(data(x@)[i as int], data(y@)[i as int]));
                    return false;
                }
                i = i + 1;
            }
            true
        },
        _ => false,
    }
}

impl PartialEq for StoreValue {
    fn eq(&self, other: &Self) -> (r: bool) {
        same_value(self, other)
    }
}

impl vstd::std_specs::cmp::PartialEqSpecImpl for StoreValue {
    open spec fn obeys_eq_spec() -> bool {
        true
    }

    open spec fn eq_spec(&self, other: &Self) -> bool {
        values_equal(self.view(), other.view())
    }
}

pub const TAG_BOOL: u8 = 0x10;

pub const TAG_LONG: u8 = 0x20;

pub const TAG_DOUBLE: u8 = 0x30;

pub const TAG_INSTANT: u8 = 0x40;

pub const TAG_STR: u8 = 0x50;

pub const TAG_KEYWORD: u8 = 0x60;

pub const TAG_UUID: u8 = 0x70;

pub const TAG_REF: u8 = 0x80;

pub const TAG_BYTES: u8 = 0x90;

pub const TAG_VEC: u8 = 0xA0;

/// Vector terminator: below every element tag so `[1 2]` sorts before `[1 2 3]`.
pub const TAG_VEC_END: u8 = 0x01;

/// Values whose encoding exceeds [`GIANT_THRESHOLD`]: the key holds the tag, a fixed-length
/// prefix of the inner encoding, and the giant id; the full value lives in the giants DBI.
/// Giants of one type sort after that type's inline values, and order beyond the prefix follows
/// insertion id, not value order.
pub const TAG_GIANT_STR: u8 = 0x51;

pub const TAG_GIANT_BYTES: u8 = 0x91;

/// Inline-encoding size limit before a value overflows to the giants DBI.
pub const GIANT_THRESHOLD: usize = 400;

/// Raw prefix bytes kept in a giant's index key.
pub const GIANT_PREFIX: usize = 64;

// ---------------------------------------------------------------------------
// The encoding
// ---------------------------------------------------------------------------

/// The tag byte of a value's type.
pub open spec fn tag_of(v: Datum) -> u8 {
    match v {
        Datum::Bool(_) => TAG_BOOL,
        Datum::Long(_) => TAG_LONG,
        Datum::Double(_) => TAG_DOUBLE,
        Datum::Instant(_) => TAG_INSTANT,
        Datum::Str(_) => TAG_STR,
        Datum::Keyword(_) => TAG_KEYWORD,
        Datum::Uuid(_) => TAG_UUID,
        Datum::Ref(_) => TAG_REF,
        Datum::Bytes(_) => TAG_BYTES,
        Datum::Vec(_) => TAG_VEC,
    }
}

/// The position of a signed integer among all of them.
pub open spec fn signed_rank(n: i64) -> nat {
    (n + 0x8000_0000_0000_0000) as nat
}

/// The position of a bit pattern in the IEEE 754 total order: patterns without the sign bit
/// upward from the middle, patterns with it downward from there.
pub open spec fn double_rank(bits: u64) -> nat {
    if bits < 0x8000_0000_0000_0000 {
        (bits + 0x8000_0000_0000_0000) as nat
    } else {
        (0xFFFF_FFFF_FFFF_FFFF - bits) as nat
    }
}

/// Each zero byte becomes `0 1`, and `0 0` ends the text.
pub open spec fn escaped(raw: Seq<u8>) -> Seq<u8>
    decreases raw.len(),
{
    if raw.len() == 0 {
        seq![0u8, 0u8]
    } else if raw[0] == 0 {
        seq![0u8, 1u8] + escaped(raw.skip(1))
    } else {
        seq![raw[0]] + escaped(raw.skip(1))
    }
}

/// The encoding of one value.
pub open spec fn encoding(v: Datum) -> Seq<u8>
    decreases v,
{
    seq![tag_of(v)] + match v {
        Datum::Bool(b) => seq![if b { 1u8 } else { 0u8 }],
        Datum::Long(n) => be_bytes(signed_rank(n), 8),
        Datum::Double(d) => be_bytes(double_rank(d), 8),
        Datum::Instant(n) => be_bytes(signed_rank(n), 8),
        Datum::Str(s) => escaped(encode_utf8(s)),
        Datum::Keyword(s) => escaped(encode_utf8(s)),
        Datum::Uuid(b) => b,
        Datum::Ref(e) => be_bytes(e as nat, 8),
        Datum::Bytes(b) => escaped(b),
        Datum::Vec(items) => encoding_all(items).push(TAG_VEC_END),
    }
}

/// The encodings of the values of `items`, one after the other.
pub open spec fn encoding_all(items: Seq<Datum>) -> Seq<u8>
    decreases items,
{
    if items.len() == 0 {
        Seq::empty()
    } else {
        encoding(items[0]) + encoding_all(items.subrange(1, items.len() as int))
    }
}

/// A value that a [`StoreValue`] can hold: every uuid has sixteen bytes.
pub open spec fn storable(v: Datum) -> bool
    decreases v,
{
    match v {
        Datum::Uuid(b) => b.len() == 16,
        Datum::Vec(items) => forall|i: int| 0 <= i < items.len() ==> storable(#[trigger] items[i]),
        _ => true,
    }
}

/// Every [`StoreValue`] holds a storable value.
pub proof fn law_store_values_are_storable(v: StoreValue)
    ensures
        storable(v.view()),
    decreases v,
{
    if let StoreValue::Vec(items) = v {
        lemma_vec_view(items);
        assert forall|i: int| 0 <= i < data(items@).len() implies storable(
            #[trigger] data(items@)[i],
        ) by {
            law_store_values_are_storable(items@[i]);
        }
    }
}

/// Appending one value appends its encoding.
pub proof fn lemma_encoding_all_push(items: Seq<Datum>, v: Datum)
    ensures
        encoding_all(items.push(v)) == encoding_all(items) + encoding(v),
    decreases items.len(),
{
    if items.len() == 0 {
        let one = items.push(v);
        assert(one.subrange(1, 1) =~= Seq::empty());
        assert(encoding_all(one.subrange(1, 1)) =~= Seq::empty());
        assert(encoding_all(items) =~= Seq::empty());
        assert(encoding_all(one) =~= encoding(v));
        assert(encoding_all(items) + encoding(v) =~= encoding(v));
    } else {
        let rest = items.subrange(1, items.len() as int);
        lemma_encoding_all_push(rest, v);
        assert(items.push(v).subrange(1, (items.len() + 1) as int) =~= rest.push(v));
        assert(encoding_all(items.push(v)) =~= encoding(items[0]) + (encoding_all(rest) + encoding(
            v,
        )));
        assert(encoding_all(items) + encoding(v) =~= encoding(items[0]) + (encoding_all(rest)
            + encoding(v)));
    }
}

/// Append `v`'s order-preserving encoding to `out`.
pub fn encode_inline(v: &StoreValue, out: &mut Vec<u8>)
    ensures
        final(out)@ == old(out)@ + encoding(v.view()),
    decreases v,
{
    let ghost start = out@;
    match v {
        StoreValue::Bool(b) => {
            out.push(TAG_BOOL);
            out.push(if *b { 1 } else { 0 });
        },
        StoreValue::Long(n) => {
            out.push(TAG_LONG);
            push_u64(order_i64(*n), out);
        },
        StoreValue::Instant(n) => {
            out.push(TAG_INSTANT);
            push_u64(order_i64(*n), out);
        },
        StoreValue::Double(d) => {
            out.push(TAG_DOUBLE);
            push_u64(order_f64(*d), out);
        },
        StoreValue::Str(s) => {
            out.push(TAG_STR);
            push_escaped(s.as_str().as_bytes(), out);
        },
        StoreValue::Keyword(s) => {
            out.push(TAG_KEYWORD);
            push_escaped(s.as_str().as_bytes(), out);
        },
        StoreValue::Uuid(b) => {
            out.push(TAG_UUID);
            push_bytes(out, b.as_slice());
        },
        StoreValue::Ref(e) => {
            out.push(TAG_REF);
            push_u64(*e, out);
        },
        StoreValue::Bytes(b) => {
            out.push(TAG_BYTES);
            push_escaped(b.as_slice(), out);
        },
        StoreValue::Vec(items) => {
            out.push(TAG_VEC);
            let mut i: usize = 0;
            assert(data(items@).take(0) =~= Seq::empty());
            while i < items.len()
                invariant
                    i <= items.len(),
                    v matches StoreValue::Vec(own) && own == *items,
                    out@ =~= start.push(TAG_VEC) + encoding_all(data(items@).take(i as int)),
                decreases items.len() - i,
            {
                assert(decreases_to!(v => items@[i as int]));
                encode_inline(&items[i], out);
                proof {
                    lemma_encoding_all_push(data(items@).take(i as int), items@[i as int].view());
                    assert(data(items@).take(i + 1) =~= data(items@).take(i as int).push(
                        items@[i as int].view(),
                    ));
                }
                i = i + 1;
            }
            out.push(TAG_VEC_END);
            proof {
                lemma_vec_view(*items);
                assert(data(items@).take(items@.len() as int) =~= data(items@));
            }
        },
    }
    assert(out@ =~= start + encoding(v.view()));
}

/// A signed integer as the unsigned one of the same rank.
fn order_i64(n: i64) -> (r: u64)
    ensures
        r as nat == signed_rank(n),
{
    (n as i128 + 0x8000_0000_0000_0000) as u64
}

/// The signed integer of rank `r`.
fn unorder_i64(r: u64) -> (n: i64)
    ensures
        signed_rank(n) == r as nat,
{
    (r as i128 - 0x8000_0000_0000_0000) as i64
}

/// A double's bits as the unsigned integer of the same rank.
fn order_f64(bits: u64) -> (r: u64)
    ensures
        r as nat == double_rank(bits),
{
    if bits < 0x8000_0000_0000_0000 {
        bits + 0x8000_0000_0000_0000
    } else {
        0xFFFF_FFFF_FFFF_FFFF - bits
    }
}

/// The bits of the double of rank `r`.
fn unorder_f64(r: u64) -> (bits: u64)
    ensures
        double_rank(bits) == r as nat,
{
    if r >= 0x8000_0000_0000_0000 {
        r - 0x8000_0000_0000_0000
    } else {
        0xFFFF_FFFF_FFFF_FFFF - r
    }
}

/// Escaping distributes over appending a byte.
proof fn lemma_escaped_step(raw: Seq<u8>, done: Seq<u8>)
    requires
        raw.len() > 0,
    ensures
        done + escaped(raw) == (if raw[0] == 0 {
            done + seq![0u8, 1u8]
        } else {
            done.push(raw[0])
        }) + escaped(raw.skip(1)),
{
    if raw[0] == 0 {
        assert(done + (seq![0u8, 1u8] + escaped(raw.skip(1))) =~= (done + seq![0u8, 1u8])
            + escaped(raw.skip(1)));
    } else {
        assert(done + (seq![raw[0]] + escaped(raw.skip(1))) =~= done.push(raw[0]) + escaped(
            raw.skip(1),
        ));
    }
}

/// Escape zero bytes and terminate: prefix-free, and in the order of the raw bytes.
fn push_escaped(raw: &[u8], out: &mut Vec<u8>)
    ensures
        final(out)@ == old(out)@ + escaped(raw@),
{
    let ghost start = out@;
    let mut i: usize = 0;
    assert(raw@.skip(0) =~= raw@);
    while i < raw.len()
        invariant
            i <= raw.len(),
            out@ + escaped(raw@.skip(i as int)) == start + escaped(raw@),
        decreases raw.len() - i,
    {
        let b = raw[i];
        let ghost before = out@;
        proof {
            lemma_escaped_step(raw@.skip(i as int), before);
            assert(raw@.skip(i as int).skip(1) =~= raw@.skip(i + 1));
        }
        out.push(b);
        if b == 0 {
            out.push(1);
            assert(out@ =~= before + seq![0u8, 1u8]);
        }
        i = i + 1;
    }
    out.push(0);
    out.push(0);
    assert(out@ =~= start + escaped(raw@));
}

// ---------------------------------------------------------------------------
// Parsing
// ---------------------------------------------------------------------------

/// One decoded value. Giant tags give the giant id instead of the value; the caller resolves it
/// against the giants DBI.
pub enum Decoded {
    Value(StoreValue),
    Giant { tag: u8, id: u64 },
}

/// What a [`Decoded`] holds.
pub enum DecodedDatum {
    Value(Datum),
    Giant { tag: u8, id: nat },
}

impl Decoded {
    /// What the decoded item holds.
    pub open spec fn view(&self) -> DecodedDatum {
        match self {
            Decoded::Value(v) => DecodedDatum::Value(v.view()),
            Decoded::Giant { tag, id } => DecodedDatum::Giant { tag: *tag, id: *id as nat },
        }
    }
}

/// The raw bytes before the terminator of escaped `bytes`, and how many bytes that took; or why
/// the bytes do not parse.
pub open spec fn unescape(bytes: Seq<u8>) -> Result<(Seq<u8>, nat), Seq<char>>
    decreases bytes.len(),
{
    if bytes.len() == 0 {
        Err("unterminated escaped bytes"@)
    } else if bytes[0] != 0 {
        match unescape(bytes.skip(1)) {
            Ok((raw, used)) => Ok((seq![bytes[0]] + raw, used + 1)),
            Err(e) => Err(e),
        }
    } else if bytes.len() == 1 {
        Err("unterminated escape"@)
    } else if bytes[1] == 0 {
        Ok((Seq::empty(), 2))
    } else if bytes[1] == 1 {
        match unescape(bytes.skip(2)) {
            Ok((raw, used)) => Ok((seq![0u8] + raw, used + 2)),
            Err(e) => Err(e),
        }
    } else {
        Err("invalid escape"@)
    }
}

/// The signed integer of rank `r`.
pub open spec fn signed_of_rank(r: nat) -> i64 {
    (r - 0x8000_0000_0000_0000) as i64
}

/// The double of rank `r`.
pub open spec fn double_of_rank(r: nat) -> u64 {
    if r >= 0x8000_0000_0000_0000 {
        (r - 0x8000_0000_0000_0000) as u64
    } else {
        (0xFFFF_FFFF_FFFF_FFFF - r) as u64
    }
}

/// The value at the front of `bytes` and how many bytes it takes, or why there is none.
pub open spec fn parse(bytes: Seq<u8>) -> Result<(DecodedDatum, nat), Seq<char>>
    decreases bytes.len(), 1nat,
{
    if bytes.len() == 0 {
        Err("empty value encoding"@)
    } else {
        let tag = bytes[0];
        let rest = bytes.skip(1);
        if tag == TAG_BOOL {
            if rest.len() < 1 {
                Err("truncated bool"@)
            } else {
                Ok((DecodedDatum::Value(Datum::Bool(rest[0] != 0)), 2))
            }
        } else if tag == TAG_LONG || tag == TAG_INSTANT {
            if rest.len() < 8 {
                Err("truncated long"@)
            } else {
                let n = signed_of_rank(be_value(rest.take(8)));
                Ok(
                    (
                        DecodedDatum::Value(
                            if tag == TAG_LONG {
                                Datum::Long(n)
                            } else {
                                Datum::Instant(n)
                            },
                        ),
                        9,
                    ),
                )
            }
        } else if tag == TAG_DOUBLE {
            if rest.len() < 8 {
                Err("truncated double"@)
            } else {
                Ok((DecodedDatum::Value(Datum::Double(double_of_rank(be_value(rest.take(8))))), 9))
            }
        } else if tag == TAG_STR || tag == TAG_KEYWORD {
            match unescape(rest) {
                Err(e) => Err(e),
                Ok((raw, used)) => if valid_utf8(raw) {
                    let s = decode_utf8(raw);
                    Ok(
                        (
                            DecodedDatum::Value(
                                if tag == TAG_STR {
                                    Datum::Str(s)
                                } else {
                                    Datum::Keyword(s)
                                },
                            ),
                            used + 1,
                        ),
                    )
                } else {
                    Err("invalid utf8"@)
                },
            }
        } else if tag == TAG_UUID {
            if rest.len() < 16 {
                Err("truncated uuid"@)
            } else {
                Ok((DecodedDatum::Value(Datum::Uuid(rest.take(16))), 17))
            }
        } else if tag == TAG_REF {
            if rest.len() < 8 {
                Err("truncated ref"@)
            } else {
                Ok((DecodedDatum::Value(Datum::Ref(be_value(rest.take(8)) as u64)), 9))
            }
        } else if tag == TAG_BYTES {
            match unescape(rest) {
                Err(e) => Err(e),
                Ok((raw, used)) => Ok((DecodedDatum::Value(Datum::Bytes(raw)), used + 1)),
            }
        } else if tag == TAG_VEC {
            match parse_items(rest) {
                Err(e) => Err(e),
                Ok((items, used)) => Ok((DecodedDatum::Value(Datum::Vec(items)), used + 1)),
            }
        } else if tag == TAG_GIANT_STR || tag == TAG_GIANT_BYTES {
            if rest.len() < GIANT_PREFIX + 8 {
                Err("truncated giant"@)
            } else {
                Ok(
                    (
                        DecodedDatum::Giant {
                            tag,
                            id: be_value(
                                rest.subrange(GIANT_PREFIX as int, GIANT_PREFIX + 8),
                            ),
                        },
                        (1 + GIANT_PREFIX + 8) as nat,
                    ),
                )
            }
        } else {
            Err("unknown value tag"@)
        }
    }
}

/// The elements at the front of `bytes` up to the vector terminator, and how many bytes they and
/// it take.
pub open spec fn parse_items(bytes: Seq<u8>) -> Result<(Seq<Datum>, nat), Seq<char>>
    decreases bytes.len(), 2nat,
{
    if bytes.len() == 0 {
        Err("unterminated vector encoding"@)
    } else if bytes[0] == TAG_VEC_END {
        Ok((Seq::empty(), 1))
    } else {
        match parse(bytes) {
            Err(e) => Err(e),
            Ok((DecodedDatum::Giant { tag: _, id: _ }, _)) => Err("giant inside vector encoding"@),
            Ok((DecodedDatum::Value(v), used)) => if used == 0 || used > bytes.len() {
                arbitrary()
            } else {
                match parse_items(bytes.skip(used as int)) {
                    Err(e) => Err(e),
                    Ok((items, more)) => Ok((seq![v] + items, used + more)),
                }
            },
        }
    }
}

/// Unescaping uses at least two bytes and never more than there are.
pub proof fn lemma_unescape_used(bytes: Seq<u8>)
    ensures
        unescape(bytes) matches Ok((_, used)) ==> 2 <= used <= bytes.len(),
    decreases bytes.len(),
{
    if bytes.len() > 0 {
        if bytes[0] != 0 {
            lemma_unescape_used(bytes.skip(1));
        } else if bytes.len() > 1 && bytes[1] == 1 {
            lemma_unescape_used(bytes.skip(2));
        }
    }
}

/// Parsing uses at least one byte and never more than there are.
pub proof fn lemma_parse_used(bytes: Seq<u8>)
    ensures
        parse(bytes) matches Ok((_, used)) ==> 1 <= used <= bytes.len(),
    decreases bytes.len(), 1nat,
{
    if bytes.len() > 0 {
        lemma_unescape_used(bytes.skip(1));
        lemma_parse_items_used(bytes.skip(1));
    }
}

/// Parsing elements uses at least one byte and never more than there are.
pub proof fn lemma_parse_items_used(bytes: Seq<u8>)
    ensures
        parse_items(bytes) matches Ok((_, used)) ==> 1 <= used <= bytes.len(),
    decreases bytes.len(), 2nat,
{
    if bytes.len() > 0 && bytes[0] != TAG_VEC_END {
        lemma_parse_used(bytes);
        if let Ok((DecodedDatum::Value(_), used)) = parse(bytes) {
            lemma_parse_items_used(bytes.skip(used as int));
        }
    }
}

/// What [`decode`] returns, seen as the parse that it stands for.
pub open spec fn decoded(r: Result<(Decoded, usize), &'static str>) -> Result<
    (DecodedDatum, nat),
    Seq<char>,
> {
    match r {
        Ok((d, used)) => Ok((d.view(), used as nat)),
        Err(e) => Err(e@),
    }
}

/// Reading eight bytes after the tag.
fn read_after_tag(bytes: &[u8]) -> (n: u64)
    requires
        bytes.len() >= 9,
    ensures
        n as nat == be_value(bytes@.skip(1).take(8)),
{
    assert(bytes@.skip(1).take(8) =~= bytes@.subrange(1, 9));
    read_u64(bytes, 1)
}

/// Decode one value from the front of `bytes`; returns the value and the number of bytes
/// consumed.
///
/// # Errors
///
/// Returns a static description when the bytes do not parse.
pub fn decode(bytes: &[u8]) -> (r: Result<(Decoded, usize), &'static str>)
    ensures
        decoded(r) == parse(bytes@),
    decreases bytes.len(),
{
    if bytes.len() == 0 {
        return Err("empty value encoding");
    }
    proof {
        lemma_parse_used(bytes@);
    }
    let ghost rest = bytes@.skip(1);
    let tag = bytes[0];
    if tag == TAG_BOOL {
        if bytes.len() < 2 {
            return Err("truncated bool");
        }
        Ok((Decoded::Value(StoreValue::Bool(bytes[1] != 0)), 2))
    } else if tag == TAG_LONG || tag == TAG_INSTANT {
        if bytes.len() < 9 {
            return Err("truncated long");
        }
        let n = unorder_i64(read_after_tag(bytes));
        let v = if tag == TAG_LONG {
            StoreValue::Long(n)
        } else {
            StoreValue::Instant(n)
        };
        Ok((Decoded::Value(v), 9))
    } else if tag == TAG_DOUBLE {
        if bytes.len() < 9 {
            return Err("truncated double");
        }
        let d = unorder_f64(read_after_tag(bytes));
        Ok((Decoded::Value(StoreValue::Double(d)), 9))
    } else if tag == TAG_STR || tag == TAG_KEYWORD {
        match pop_escaped(bytes, 1) {
            Err(e) => Err(e),
            Ok((raw, used)) => {
                match text_from_utf8(raw) {
                    None => Err("invalid utf8"),
                    Some(s) => {
                        let v = if tag == TAG_STR {
                            StoreValue::Str(s)
                        } else {
                            StoreValue::Keyword(s)
                        };
                        Ok((Decoded::Value(v), 1 + used))
                    },
                }
            },
        }
    } else if tag == TAG_UUID {
        if bytes.len() < 17 {
            return Err("truncated uuid");
        }
        let mut b: [u8; 16] = [0; 16];
        let mut i: usize = 0;
        while i < 16
            invariant
                i <= 16,
                bytes.len() >= 17,
                forall|j: int| 0 <= j < i ==> b@[j] == bytes@[j + 1],
            decreases 16 - i,
        {
            b[i] = bytes[i + 1];
            i = i + 1;
        }
        assert(b@ =~= bytes@.skip(1).take(16));
        Ok((Decoded::Value(StoreValue::Uuid(b)), 17))
    } else if tag == TAG_REF {
        if bytes.len() < 9 {
            return Err("truncated ref");
        }
        Ok((Decoded::Value(StoreValue::Ref(read_after_tag(bytes))), 9))
    } else if tag == TAG_BYTES {
        match pop_escaped(bytes, 1) {
            Err(e) => Err(e),
            Ok((raw, used)) => Ok((Decoded::Value(StoreValue::Bytes(raw)), 1 + used)),
        }
    } else if tag == TAG_VEC {
        let mut items: Vec<StoreValue> = Vec::new();
        let mut at: usize = 1;
        let ghost whole = parse_items(rest);
        assert(data(items@) =~= Seq::empty());
        loop
            invariant
                1 <= at <= bytes.len(),
                bytes@.len() > 0,
                bytes@[0] == TAG_VEC,
                rest == bytes@.skip(1),
                whole == parse_items(rest),
                match parse_items(bytes@.skip(at as int)) {
                    Err(e) => whole == Err::<(Seq<Datum>, nat), Seq<char>>(e),
                    Ok((more, used)) => whole == Ok::<(Seq<Datum>, nat), Seq<char>>(
                        (data(items@) + more, (at - 1 + used) as nat),
                    ),
                },
            decreases bytes.len() - at,
        {
            let ghost tail = bytes@.skip(at as int);
            proof {
                lemma_parse_items_used(tail);
                lemma_parse_used(tail);
                lemma_parse_used(bytes@);
            }
            if at >= bytes.len() {
                return Err("unterminated vector encoding");
            }
            if bytes[at] == TAG_VEC_END {
                proof {
                    lemma_vec_view(items);
                    assert(data(items@) + Seq::<Datum>::empty() =~= data(items@));
                }
                return Ok((Decoded::Value(StoreValue::Vec(items)), at + 1));
            }
            match decode(vstd::slice::slice_subrange(bytes, at, bytes.len())) {
                Err(e) => {
                    assert(bytes@.subrange(at as int, bytes@.len() as int) =~= tail);
                    return Err(e);
                },
                Ok((Decoded::Giant { tag: _, id: _ }, _)) => {
                    assert(bytes@.subrange(at as int, bytes@.len() as int) =~= tail);
                    return Err("giant inside vector encoding");
                },
                Ok((Decoded::Value(v), used)) => {
                    proof {
                        assert(bytes@.subrange(at as int, bytes@.len() as int) =~= tail);
                        assert(tail.skip(used as int) =~= bytes@.skip(at + used));
                        let before = data(items@);
                        assert(data(items@.push(v)) =~= before.push(v.view()));
                        if let Ok((more, _)) = parse_items(bytes@.skip(at + used)) {
                            assert(before + (seq![v.view()] + more) =~= before.push(v.view())
                                + more);
                        }
                    }
                    items.push(v);
                    at = at + used;
                },
            }
        }
    } else if tag == TAG_GIANT_STR || tag == TAG_GIANT_BYTES {
        if bytes.len() < 1 + GIANT_PREFIX + 8 {
            return Err("truncated giant");
        }
        assert(rest.subrange(GIANT_PREFIX as int, GIANT_PREFIX + 8) =~= bytes@.subrange(
            1 + GIANT_PREFIX,
            1 + GIANT_PREFIX + 8,
        ));
        let id = read_u64(bytes, 1 + GIANT_PREFIX);
        Ok((Decoded::Giant { tag, id }, 1 + GIANT_PREFIX + 8))
    } else {
        Err("unknown value tag")
    }
}

/// Unescape from position `from` of `bytes`; returns the raw bytes and how many bytes were used.
fn pop_escaped(bytes: &[u8], from: usize) -> (r: Result<(Vec<u8>, usize), &'static str>)
    requires
        from <= bytes.len(),
    ensures
        match (r, unescape(bytes@.skip(from as int))) {
            (Ok((raw, used)), Ok((want, n))) => raw@ == want && used as nat == n && from + used
                <= bytes.len(),
            (Err(e), Err(want)) => e@ == want,
            _ => false,
        },
{
    let mut raw: Vec<u8> = Vec::new();
    let mut i: usize = from;
    let ghost whole = unescape(bytes@.skip(from as int));
    assert(match whole {
        Ok((more, used)) => raw@ + more =~= more,
        Err(_) => true,
    });
    loop
        invariant
            from <= i <= bytes.len(),
            whole == unescape(bytes@.skip(from as int)),
            match unescape(bytes@.skip(i as int)) {
                Err(e) => whole == Err::<(Seq<u8>, nat), Seq<char>>(e),
                Ok((more, used)) => whole == Ok::<(Seq<u8>, nat), Seq<char>>(
                    (raw@ + more, (i - from + used) as nat),
                ),
            },
        decreases bytes.len() - i,
    {
        let ghost tail = bytes@.skip(i as int);
        let ghost before = raw@;
        proof {
            lemma_unescape_used(tail);
            if tail.len() > 0 {
                assert(tail.skip(1) =~= bytes@.skip(i + 1));
            }
            if tail.len() > 1 {
                assert(tail.skip(2) =~= bytes@.skip(i + 2));
            }
        }
        if i >= bytes.len() {
            return Err("unterminated escaped bytes");
        }
        let b = bytes[i];
        i = i + 1;
        if b == 0 {
            if i >= bytes.len() {
                return Err("unterminated escape");
            }
            let next = bytes[i];
            i = i + 1;
            if next == 0 {
                assert(before + Seq::<u8>::empty() =~= before);
                return Ok((raw, i - from));
            } else if next == 1 {
                raw.push(0);
                proof {
                    if let Ok((more, _)) = unescape(tail.skip(2)) {
                        assert(before + (seq![0u8] + more) =~= raw@ + more);
                    }
                }
            } else {
                return Err("invalid escape");
            }
        } else {
            raw.push(b);
            proof {
                if let Ok((more, _)) = unescape(tail.skip(1)) {
                    assert(before + (seq![b] + more) =~= raw@ + more);
                }
            }
        }
    }
}

// ---------------------------------------------------------------------------
// Order
// ---------------------------------------------------------------------------

/// The order of values: by type first, then within the type.
pub open spec fn value_lt(a: Datum, b: Datum) -> bool
    decreases a,
{
    if tag_of(a) != tag_of(b) {
        tag_of(a) < tag_of(b)
    } else {
        match (a, b) {
            (Datum::Bool(x), Datum::Bool(y)) => !x && y,
            (Datum::Long(x), Datum::Long(y)) => x < y,
            (Datum::Double(x), Datum::Double(y)) => double_rank(x) < double_rank(y),
            (Datum::Instant(x), Datum::Instant(y)) => x < y,
            (Datum::Str(x), Datum::Str(y)) => lex_lt(encode_utf8(x), encode_utf8(y)),
            (Datum::Keyword(x), Datum::Keyword(y)) => lex_lt(encode_utf8(x), encode_utf8(y)),
            (Datum::Uuid(x), Datum::Uuid(y)) => lex_lt(x, y),
            (Datum::Ref(x), Datum::Ref(y)) => x < y,
            (Datum::Bytes(x), Datum::Bytes(y)) => lex_lt(x, y),
            (Datum::Vec(x), Datum::Vec(y)) => items_lt(x, y),
            _ => false,
        }
    }
}

/// The order of vectors: element-wise, shorter prefixes first.
pub open spec fn items_lt(a: Seq<Datum>, b: Seq<Datum>) -> bool
    decreases a,
{
    if b.len() == 0 {
        false
    } else if a.len() == 0 {
        true
    } else if a[0] == b[0] {
        items_lt(a.subrange(1, a.len() as int), b.subrange(1, b.len() as int))
    } else {
        value_lt(a[0], b[0])
    }
}

/// Escaping keeps the order of the raw bytes, and decides it inside both texts.
pub proof fn law_escape_keeps_order(a: Seq<u8>, b: Seq<u8>)
    requires
        lex_lt(a, b),
    ensures
        splits_below(escaped(a), escaped(b)),
    decreases a.len(),
{
    if a.len() == 0 {
        let x = escaped(a);
        let y = escaped(b);
        if b[0] == 0 {
            assert(x.take(1) =~= y.take(1));
            assert(splits_at(x, y, 1));
        } else {
            assert(x.take(0) =~= y.take(0));
            assert(splits_at(x, y, 0));
        }
    } else if a[0] == b[0] {
        law_escape_keeps_order(a.skip(1), b.skip(1));
        let p = if a[0] == 0 {
            seq![0u8, 1u8]
        } else {
            seq![a[0]]
        };
        lemma_split_prefix(p, escaped(a.skip(1)), escaped(b.skip(1)));
    } else {
        let x = escaped(a);
        let y = escaped(b);
        assert(x.take(0) =~= y.take(0));
        assert(splits_at(x, y, 0));
    }
}

/// Strings of one length that are ordered differ inside both.
proof fn lemma_equal_len_splits(a: Seq<u8>, b: Seq<u8>)
    requires
        lex_lt(a, b),
        a.len() == b.len(),
    ensures
        splits_below(a, b),
    decreases a.len(),
{
    if a[0] == b[0] {
        lemma_equal_len_splits(a.skip(1), b.skip(1));
        lemma_split_prefix(seq![a[0]], a.skip(1), b.skip(1));
        assert(a =~= seq![a[0]] + a.skip(1));
        assert(b =~= seq![b[0]] + b.skip(1));
    } else {
        assert(a.take(0) =~= b.take(0));
        assert(splits_at(a, b, 0));
    }
}

/// The encoding keeps the value order and decides it inside both encodings: whatever follows an
/// encoded value in a key, the value comes first in the order.
pub proof fn law_encoding_keeps_order(a: Datum, b: Datum)
    requires
        storable(a),
        storable(b),
        value_lt(a, b),
    ensures
        splits_below(encoding(a), encoding(b)),
    decreases a,
{
    let x = encoding(a).skip(1);
    let y = encoding(b).skip(1);
    assert(encoding(a) =~= seq![tag_of(a)] + x);
    assert(encoding(b) =~= seq![tag_of(b)] + y);
    if tag_of(a) != tag_of(b) {
        assert(encoding(a).take(0) =~= encoding(b).take(0));
        assert(splits_at(encoding(a), encoding(b), 0));
    } else {
        lemma_pow256_8();
        match (a, b) {
            (Datum::Bool(_), Datum::Bool(_)) => {
                assert(x.take(0) =~= y.take(0));
                assert(splits_at(x, y, 0));
            },
            (Datum::Long(n), Datum::Long(m)) => {
                lemma_be_order(signed_rank(n), signed_rank(m), 8);
                assert(x =~= be_bytes(signed_rank(n), 8));
                assert(y =~= be_bytes(signed_rank(m), 8));
            },
            (Datum::Double(n), Datum::Double(m)) => {
                lemma_be_order(double_rank(n), double_rank(m), 8);
                assert(x =~= be_bytes(double_rank(n), 8));
                assert(y =~= be_bytes(double_rank(m), 8));
            },
            (Datum::Instant(n), Datum::Instant(m)) => {
                lemma_be_order(signed_rank(n), signed_rank(m), 8);
                assert(x =~= be_bytes(signed_rank(n), 8));
                assert(y =~= be_bytes(signed_rank(m), 8));
            },
            (Datum::Str(n), Datum::Str(m)) => {
                law_escape_keeps_order(encode_utf8(n), encode_utf8(m));
                assert(x =~= escaped(encode_utf8(n)));
                assert(y =~= escaped(encode_utf8(m)));
            },
            (Datum::Keyword(n), Datum::Keyword(m)) => {
                law_escape_keeps_order(encode_utf8(n), encode_utf8(m));
                assert(x =~= escaped(encode_utf8(n)));
                assert(y =~= escaped(encode_utf8(m)));
            },
            (Datum::Uuid(n), Datum::Uuid(m)) => {
                lemma_equal_len_splits(n, m);
                assert(x =~= n);
                assert(y =~= m);
            },
            (Datum::Ref(n), Datum::Ref(m)) => {
                lemma_be_order(n as nat, m as nat, 8);
                assert(x =~= be_bytes(n as nat, 8));
                assert(y =~= be_bytes(m as nat, 8));
            },
            (Datum::Bytes(n), Datum::Bytes(m)) => {
                law_escape_keeps_order(n, m);
                assert(x =~= escaped(n));
                assert(y =~= escaped(m));
            },
            (Datum::Vec(n), Datum::Vec(m)) => {
                lemma_items_keep_order(n, m);
                assert(x =~= encoding_all(n).push(TAG_VEC_END));
                assert(y =~= encoding_all(m).push(TAG_VEC_END));
            },
            _ => {},
        }
        lemma_split_prefix(seq![tag_of(a)], x, y);
    }
}

/// Terminated element encodings keep the order of the vectors.
proof fn lemma_items_keep_order(a: Seq<Datum>, b: Seq<Datum>)
    requires
        forall|i: int| 0 <= i < a.len() ==> storable(#[trigger] a[i]),
        forall|i: int| 0 <= i < b.len() ==> storable(#[trigger] b[i]),
        items_lt(a, b),
    ensures
        splits_below(encoding_all(a).push(TAG_VEC_END), encoding_all(b).push(TAG_VEC_END)),
    decreases a,
{
    let x = encoding_all(a).push(TAG_VEC_END);
    let y = encoding_all(b).push(TAG_VEC_END);
    let more_b = b.subrange(1, b.len() as int);
    let tail_b = encoding_all(more_b).push(TAG_VEC_END);
    assert(y =~= encoding(b[0]) + tail_b);
    if a.len() == 0 {
        assert(x.take(0) =~= y.take(0));
        assert(y[0] == tag_of(b[0]));
        assert(splits_at(x, y, 0));
    } else {
        let more_a = a.subrange(1, a.len() as int);
        let tail_a = encoding_all(more_a).push(TAG_VEC_END);
        assert(x =~= encoding(a[0]) + tail_a);
        if a[0] == b[0] {
            assert forall|i: int| 0 <= i < more_a.len() implies storable(#[trigger] more_a[i]) by {
                assert(more_a[i] == a[i + 1]);
            }
            assert forall|i: int| 0 <= i < more_b.len() implies storable(#[trigger] more_b[i]) by {
                assert(more_b[i] == b[i + 1]);
            }
            lemma_items_keep_order(more_a, more_b);
            lemma_split_prefix(encoding(a[0]), tail_a, tail_b);
        } else {
            assert(storable(a[0]) && storable(b[0]));
            law_encoding_keeps_order(a[0], b[0]);
            lemma_split_extend(encoding(a[0]), encoding(b[0]), tail_a, tail_b);
        }
    }
}

/// Any two values are the same or ordered one way.
pub proof fn law_values_are_ordered(a: Datum, b: Datum)
    ensures
        a == b || value_lt(a, b) || value_lt(b, a),
    decreases a,
{
    match (a, b) {
        (Datum::Str(x), Datum::Str(y)) => {
            lemma_lex_total(encode_utf8(x), encode_utf8(y));
            if encode_utf8(x) == encode_utf8(y) {
                lemma_utf8_injective(x, y);
            }
        },
        (Datum::Keyword(x), Datum::Keyword(y)) => {
            lemma_lex_total(encode_utf8(x), encode_utf8(y));
            if encode_utf8(x) == encode_utf8(y) {
                lemma_utf8_injective(x, y);
            }
        },
        (Datum::Uuid(x), Datum::Uuid(y)) => lemma_lex_total(x, y),
        (Datum::Bytes(x), Datum::Bytes(y)) => lemma_lex_total(x, y),
        (Datum::Vec(x), Datum::Vec(y)) => lemma_items_are_ordered(x, y),
        _ => {},
    }
}

proof fn lemma_items_are_ordered(a: Seq<Datum>, b: Seq<Datum>)
    ensures
        a == b || items_lt(a, b) || items_lt(b, a),
    decreases a,
{
    if a.len() == 0 || b.len() == 0 {
        if a.len() == 0 && b.len() == 0 {
            assert(a =~= b);
        }
    } else if a[0] == b[0] {
        let more_a = a.subrange(1, a.len() as int);
        let more_b = b.subrange(1, b.len() as int);
        lemma_items_are_ordered(more_a, more_b);
        if more_a == more_b {
            assert(a =~= seq![a[0]] + more_a);
            assert(b =~= seq![b[0]] + more_b);
        }
    } else {
        law_values_are_ordered(a[0], b[0]);
    }
}

/// Keys that hold encoded values sort as the values do, whatever follows the values: the byte
/// order of two keys is the order of their values wherever these differ.
pub proof fn law_byte_order_is_value_order(a: Datum, b: Datum, x: Seq<u8>, y: Seq<u8>)
    requires
        storable(a),
        storable(b),
        a != b,
    ensures
        lex_lt(encoding(a) + x, encoding(b) + y) <==> value_lt(a, b),
{
    law_values_are_ordered(a, b);
    if value_lt(a, b) {
        law_encoding_keeps_order(a, b);
        lemma_split_orders(encoding(a), encoding(b), x, y);
    } else {
        law_encoding_keeps_order(b, a);
        lemma_split_orders(encoding(b), encoding(a), y, x);
        crate::bytes::lemma_lex_asymmetric(encoding(b) + y, encoding(a) + x);
    }
}

/// The encoding is prefix-free: no value's encoding starts another value's.
pub proof fn law_encoding_is_prefix_free(a: Datum, b: Datum, x: Seq<u8>, y: Seq<u8>)
    requires
        storable(a),
        storable(b),
        encoding(a) + x == encoding(b) + y,
    ensures
        a == b,
        x == y,
{
    if a != b {
        law_byte_order_is_value_order(a, b, x, y);
        law_byte_order_is_value_order(b, a, y, x);
        law_values_are_ordered(a, b);
        lemma_lex_irreflexive(encoding(a) + x);
    }
    assert(x =~= (encoding(a) + x).skip(encoding(a).len() as int));
    assert(y =~= (encoding(b) + y).skip(encoding(b).len() as int));
}

// ---------------------------------------------------------------------------
// Round trip
// ---------------------------------------------------------------------------

/// Unescaping undoes escaping and stops at the terminator.
pub proof fn law_unescape_undoes_escape(raw: Seq<u8>, more: Seq<u8>)
    ensures
        unescape(escaped(raw) + more) == Ok::<(Seq<u8>, nat), Seq<char>>(
            (raw, escaped(raw).len()),
        ),
    decreases raw.len(),
{
    let all = escaped(raw) + more;
    if raw.len() == 0 {
        assert(all[0] == 0 && all[1] == 0);
        assert(raw =~= Seq::empty());
    } else {
        law_unescape_undoes_escape(raw.skip(1), more);
        assert(raw =~= seq![raw[0]] + raw.skip(1));
        if raw[0] == 0 {
            assert(all[0] == 0 && all[1] == 1);
            assert(all.skip(2) =~= escaped(raw.skip(1)) + more);
        } else {
            assert(all[0] == raw[0]);
            assert(all.skip(1) =~= escaped(raw.skip(1)) + more);
        }
    }
}

/// Decoding gives back the value that was encoded and stops where its encoding ends, whatever
/// bytes follow.
pub proof fn law_decode_undoes_encode(v: Datum, more: Seq<u8>)
    requires
        storable(v),
    ensures
        parse(encoding(v) + more) == Ok::<(DecodedDatum, nat), Seq<char>>(
            (DecodedDatum::Value(v), encoding(v).len()),
        ),
    decreases v,
{
    let all = encoding(v) + more;
    let rest = all.skip(1);
    let body = encoding(v).skip(1);
    assert(rest =~= body + more);
    assert(all[0] == tag_of(v));
    lemma_pow256_8();
    match v {
        Datum::Bool(_) => {},
        Datum::Long(n) => {
            lemma_be_len(signed_rank(n), 8);
            lemma_be_round_trip(signed_rank(n), 8);
            assert(rest.take(8) =~= be_bytes(signed_rank(n), 8));
        },
        Datum::Instant(n) => {
            lemma_be_len(signed_rank(n), 8);
            lemma_be_round_trip(signed_rank(n), 8);
            assert(rest.take(8) =~= be_bytes(signed_rank(n), 8));
        },
        Datum::Double(n) => {
            lemma_be_len(double_rank(n), 8);
            lemma_be_round_trip(double_rank(n), 8);
            assert(rest.take(8) =~= be_bytes(double_rank(n), 8));
        },
        Datum::Ref(n) => {
            lemma_be_len(n as nat, 8);
            lemma_be_round_trip(n as nat, 8);
            assert(rest.take(8) =~= be_bytes(n as nat, 8));
        },
        Datum::Str(s) => {
            assert(body =~= escaped(encode_utf8(s)));
            law_unescape_undoes_escape(encode_utf8(s), more);
            encode_utf8_valid_utf8(s);
            encode_utf8_decode_utf8(s);
        },
        Datum::Keyword(s) => {
            assert(body =~= escaped(encode_utf8(s)));
            law_unescape_undoes_escape(encode_utf8(s), more);
            encode_utf8_valid_utf8(s);
            encode_utf8_decode_utf8(s);
        },
        Datum::Uuid(b) => {
            assert(rest.take(16) =~= b);
        },
        Datum::Bytes(b) => {
            assert(body =~= escaped(b));
            law_unescape_undoes_escape(b, more);
        },
        Datum::Vec(items) => {
            assert(body =~= encoding_all(items).push(TAG_VEC_END));
            lemma_items_round_trip(items, more);
        },
    }
}

proof fn lemma_items_round_trip(items: Seq<Datum>, more: Seq<u8>)
    requires
        forall|i: int| 0 <= i < items.len() ==> storable(#[trigger] items[i]),
    ensures
        parse_items(encoding_all(items).push(TAG_VEC_END) + more) == Ok::<
            (Seq<Datum>, nat),
            Seq<char>,
        >((items, encoding_all(items).len() + 1)),
    decreases items,
{
    let all = encoding_all(items).push(TAG_VEC_END) + more;
    if items.len() == 0 {
        assert(all[0] == TAG_VEC_END);
        assert(items =~= Seq::empty());
    } else {
        let rest = items.subrange(1, items.len() as int);
        let tail = encoding_all(rest).push(TAG_VEC_END) + more;
        assert(all =~= encoding(items[0]) + tail);
        assert(storable(items[0]));
        law_decode_undoes_encode(items[0], tail);
        assert forall|i: int| 0 <= i < rest.len() implies storable(#[trigger] rest[i]) by {
            assert(rest[i] == items[i + 1]);
        }
        lemma_items_round_trip(rest, more);
        assert(all[0] == tag_of(items[0]));
        assert(all.skip(encoding(items[0]).len() as int) =~= tail);
        assert(seq![items[0]] + rest =~= items);
    }
}

} // verus!
