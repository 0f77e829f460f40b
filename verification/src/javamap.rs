//! Minimal emulations of mutable `java.util` classes, for portable libraries whose JVM branches
//! reach for a mutable map, list, set, deque or string builder.
//!
//! A shim lives in a [`Heap`] and is known to programs by its handle. Maps and sets iterate in
//! insertion order, so two identical runs produce identical iteration order.

use vstd::prelude::*;
use vstd::utf8::*;
use crate::decimal::digits;
use crate::decimal::push_digits;
use crate::hash_map::{entry_value, key_position, without_key};
use crate::hash_set::{item_position, with_item, with_items, without_item};
use crate::instant::{bad_inst, inst_millis, is_inst_text};
use crate::instant::{format_rfc3339_millis, parse_rfc3339_millis};
use crate::rng::NumRng;
use crate::tables::{optional, optional_ref, rebound, table_entries, table_items};
use crate::tables::{
    items_clear, items_contain, items_insert, items_iter, items_len, items_new, items_remove,
    table_clear, table_get, table_insert, table_iter, table_len, table_new, table_remove, ItemTable,
    ValueTable,
};
use crate::text::{chars_of, push_text, same_text, text_copy, text_of};
use crate::value::{kind_of, lemma_views, pair_vals, same, vals, Failure, Val};
use crate::value::{equal, value_copy, values_copy, Value, ValueError, ValueResult};

verus! {

// ---------------------------------------------------------------------------
// The shims and the heap they live in
// ---------------------------------------------------------------------------

/// `java.util.HashMap`.
#[derive(Debug)]
pub struct JavaHashMap {
    pub inner: ValueTable,
}

/// `java.util.Iterator` over a snapshot.
#[derive(Debug)]
pub struct JavaIterator {
    pub items: Vec<Value>,
}

/// `java.util.ArrayList`.
#[derive(Debug)]
pub struct JavaArrayList {
    pub items: Vec<Value>,
}

/// `java.util.HashSet`.
#[derive(Debug)]
pub struct JavaHashSet {
    pub items: ItemTable,
}

/// `java.util.concurrent.CompletableFuture`: a settable box.
#[derive(Debug)]
pub struct JavaCompletableFuture {
    pub slot: Option<Value>,
}

/// `java.lang.Object`: equal only to itself.
#[derive(Debug)]
pub struct JavaObject;

/// `java.util.ArrayDeque`, the head first.
#[derive(Debug)]
pub struct JavaArrayDeque {
    pub items: Vec<Value>,
}

/// `java.time.format.DateTimeFormatter`: stateless, speaks RFC 3339.
#[derive(Debug)]
pub struct JavaDateFormatter;

/// `java.lang.StringBuilder`.
#[derive(Debug)]
pub struct JavaStringBuilder {
    pub buf: String,
}

/// A host object that values refer to by handle.
#[derive(Debug)]
pub enum NativeObject {
    HashTable(JavaHashMap),
    Iterator(JavaIterator),
    ArrayList(JavaArrayList),
    HashItems(JavaHashSet),
    CompletableFuture(JavaCompletableFuture),
    Object(JavaObject),
    ArrayDeque(JavaArrayDeque),
    DateFormatter(JavaDateFormatter),
    StringBuilder(JavaStringBuilder),
    Rng(NumRng),
    /// An object that another part of the host owns, by its type tag.
    Foreign(String),
}

/// What a [`NativeObject`] holds.
pub enum Native {
    HashTable(Seq<(Val, Val)>),
    Iterator(Seq<Val>),
    ArrayList(Seq<Val>),
    HashItems(Seq<Val>),
    CompletableFuture(Option<Val>),
    Object,
    ArrayDeque(Seq<Val>),
    DateFormatter,
    StringBuilder(Seq<char>),
    Rng(u64),
    Foreign(Seq<char>),
}

impl NativeObject {
    /// What the object holds.
    pub open spec fn view(&self) -> Native {
        match self {
            NativeObject::HashTable(m) => Native::HashTable(table_entries(m.inner)),
            NativeObject::Iterator(it) => Native::Iterator(vals(it.items@)),
            NativeObject::ArrayList(l) => Native::ArrayList(vals(l.items@)),
            NativeObject::HashItems(s) => Native::HashItems(table_items(s.items)),
            NativeObject::CompletableFuture(f) => Native::CompletableFuture(optional(f.slot)),
            NativeObject::Object(_) => Native::Object,
            NativeObject::ArrayDeque(d) => Native::ArrayDeque(vals(d.items@)),
            NativeObject::DateFormatter(_) => Native::DateFormatter,
            NativeObject::StringBuilder(b) => Native::StringBuilder(b.buf@),
            NativeObject::Rng(r) => Native::Rng(r.view()),
            NativeObject::Foreign(tag) => Native::Foreign(tag@),
        }
    }

    /// The type tag of the object.
    pub fn type_tag(&self) -> (r: &str)
        ensures
            r@ == tag_of(self.view()),
    {
        match self {
            NativeObject::HashTable(_) => "java.util.HashMap",
            NativeObject::Iterator(_) => "java.util.Iterator",
            NativeObject::ArrayList(_) => "java.util.ArrayList",
            NativeObject::HashItems(_) => "java.util.HashSet",
            NativeObject::CompletableFuture(_) => "java.util.concurrent.CompletableFuture",
            NativeObject::Object(_) => "java.lang.Object",
            NativeObject::ArrayDeque(_) => "java.util.ArrayDeque",
            NativeObject::DateFormatter(_) => "java.time.format.DateTimeFormatter",
            NativeObject::StringBuilder(_) => "StringBuilder",
            NativeObject::Rng(_) => "NumRng",
            NativeObject::Foreign(tag) => tag.as_str(),
        }
    }
}

/// The type tag of an object.
pub open spec fn tag_of(n: Native) -> Seq<char> {
    match n {
        Native::HashTable(_) => "java.util.HashMap"@,
        Native::Iterator(_) => "java.util.Iterator"@,
        Native::ArrayList(_) => "java.util.ArrayList"@,
        Native::HashItems(_) => "java.util.HashSet"@,
        Native::CompletableFuture(_) => "java.util.concurrent.CompletableFuture"@,
        Native::Object => "java.lang.Object"@,
        Native::ArrayDeque(_) => "java.util.ArrayDeque"@,
        Native::DateFormatter => "java.time.format.DateTimeFormatter"@,
        Native::StringBuilder(_) => "StringBuilder"@,
        Native::Rng(_) => "NumRng"@,
        Native::Foreign(tag) => tag,
    }
}

/// The host objects of a running program; an object's handle is its position.
#[derive(Debug)]
pub struct Heap {
    pub objects: Vec<NativeObject>,
}

impl Heap {
    /// What the objects hold.
    pub open spec fn view(&self) -> Seq<Native> {
        Seq::new(self.objects@.len(), |i: int| self.objects@[i].view())
    }

    pub fn new() -> (r: Heap)
        ensures
            r.view().len() == 0,
    {
        Heap { objects: Vec::new() }
    }

    /// Put an object on the heap; its handle is a value equal only to itself.
    pub fn add_object(&mut self, object: NativeObject) -> (r: Value)
        requires
            old(self).view().len() <= u64::MAX,
        ensures
            final(self).view() == old(self).view().push(object.view()),
            r.view() == Val::NativeObject(old(self).view().len() as u64),
    {
        let ghost before = self.view();
        let ghost held = object.view();
        let handle: u64 = self.objects.len() as u64;
        self.objects.push(object);
        assert(self.view() =~= before.push(held));
        Value::NativeObject(handle)
    }

    /// The object behind a handle.
    pub fn object(&self, handle: u64) -> (r: Option<&NativeObject>)
        ensures
            match r {
                Some(o) => handle < self.view().len() && o.view() == self.view()[handle as int],
                None => handle >= self.view().len(),
            },
    {
        if handle < self.objects.len() as u64 {
            Some(&self.objects[handle as usize])
        } else {
            None
        }
    }
}

/// What a value refers to on the heap.
pub open spec fn referred(v: Val, heap: Seq<Native>) -> Option<Native> {
    match v {
        Val::NativeObject(h) => if h < heap.len() {
            Some(heap[h as int])
        } else {
            None
        },
        _ => None,
    }
}

/// The object that a value refers to.
fn referred_object<'a>(v: &Value, heap: &'a Heap) -> (r: Option<&'a NativeObject>)
    ensures
        match r {
            Some(o) => referred(v.view(), heap.view()) == Some(o.view()),
            None => referred(v.view(), heap.view()) is None,
        },
{
    match v {
        Value::NativeObject(h) => heap.object(*h),
        _ => None,
    }
}

// ---------------------------------------------------------------------------
// Elements of a collection
// ---------------------------------------------------------------------------

/// An entry as a `[key value]` vector.
pub open spec fn entry_vector(e: (Val, Val)) -> Val {
    Val::Vector(seq![e.0, e.1])
}

/// The entries as `[key value]` vectors.
pub open spec fn entry_vectors(entries: Seq<(Val, Val)>) -> Seq<Val> {
    entries.map_values(|e: (Val, Val)| entry_vector(e))
}

/// The elements of a mutable collection; a map's are its entries.
pub open spec fn native_items(n: Native) -> Option<Seq<Val>> {
    match n {
        Native::ArrayList(items) => Some(items),
        Native::HashItems(items) => Some(items),
        Native::HashTable(entries) => Some(entry_vectors(entries)),
        _ => None,
    }
}

/// A character as a value.
pub open spec fn char_val(c: char) -> Val {
    Val::Char(c)
}

/// The characters of a text as values.
pub open spec fn char_vals(s: Seq<char>) -> Seq<Val> {
    Seq::new(s.len(), |i: int| char_val(s[i]))
}

/// The elements that a value has as a sequence.
pub open spec fn seq_items(v: Val, heap: Seq<Native>) -> Option<Seq<Val>> {
    match v {
        Val::Nil => Some(Seq::empty()),
        Val::List(items) => Some(items),
        Val::Vector(items) => Some(items),
        Val::HashSet(items) => Some(items),
        Val::ObjectArray(items) => Some(items),
        Val::HashMap(entries) => Some(entry_vectors(entries)),
        Val::Str(s) => Some(char_vals(s)),
        Val::LongArray(a) => Some(a.map_values(|n: i64| Val::Long(n))),
        Val::DoubleArray(a) => Some(a.map_values(|d: u64| Val::Double(d))),
        Val::NativeObject(_) => match referred(v, heap) {
            Some(n) => native_items(n),
            None => None,
        },
        _ => None,
    }
}

/// What a value without elements fails with.
pub open spec fn not_a_seq(v: Val) -> Failure {
    Failure::WrongType { expected: "seqable"@, got: kind_of(v) }
}

fn entry_value_vector(k: &Value, v: &Value) -> (r: Value)
    ensures
        r.view() == entry_vector((k.view(), v.view())),
{
    let mut pair: Vec<Value> = Vec::new();
    pair.push(value_copy(k));
    pair.push(value_copy(v));
    let r = Value::Vector(pair);
    proof {
        lemma_views(r);
        assert(vals(pair@) =~= seq![k.view(), v.view()]);
    }
    r
}

fn table_vectors(t: &ValueTable) -> (r: Vec<Value>)
    ensures
        vals(r@) == entry_vectors(table_entries(*t)),
{
    let entries = table_iter(t);
    let mut r: Vec<Value> = Vec::new();
    for i in 0..entries.len()
        invariant
            r@.len() == i,
            entries@.len() == table_entries(*t).len(),
            forall|j: int|
                0 <= j < entries@.len() ==> (#[trigger] entries@[j]).0.view() == table_entries(
                    *t,
                )[j].0,
            forall|j: int|
                0 <= j < entries@.len() ==> (#[trigger] entries@[j]).1.view() == table_entries(
                    *t,
                )[j].1,
            forall|j: int|
                0 <= j < i ==> (#[trigger] r@[j]).view() == entry_vector(table_entries(*t)[j]),
    {
        r.push(entry_value_vector(entries[i].0, entries[i].1));
    }
    assert(vals(r@) =~= entry_vectors(table_entries(*t)));
    r
}

fn copies(refs: Vec<&Value>) -> (r: Vec<Value>)
    ensures
        r@.len() == refs@.len(),
        forall|i: int| 0 <= i < r@.len() ==> (#[trigger] r@[i]).view() == refs@[i].view(),
{
    let mut r: Vec<Value> = Vec::new();
    for i in 0..refs.len()
        invariant
            r@.len() == i,
            forall|j: int| 0 <= j < i ==> (#[trigger] r@[j]).view() == refs@[j].view(),
    {
        r.push(value_copy(refs[i]));
    }
    r
}

fn item_copies(t: &ItemTable) -> (r: Vec<Value>)
    ensures
        vals(r@) == table_items(*t),
{
    let r = copies(items_iter(t));
    assert(vals(r@) =~= table_items(*t));
    r
}

fn object_items(o: &NativeObject) -> (r: Option<Vec<Value>>)
    ensures
        (match r {
            Some(items) => Some(vals(items@)),
            None => None,
        }) == native_items(o.view()),
{
    match o {
        NativeObject::ArrayList(l) => Some(values_copy(&l.items)),
        NativeObject::HashItems(s) => Some(item_copies(&s.items)),
        NativeObject::HashTable(m) => Some(table_vectors(&m.inner)),
        _ => None,
    }
}

/// Snapshot the elements of a shim collection; `None` for what is not one. Maps give
/// `[key value]` entries.
pub fn native_coll_items(v: &Value, heap: &Heap) -> (r: Option<Vec<Value>>)
    ensures
        (match r {
            Some(items) => Some(vals(items@)),
            None => None,
        }) == (match referred(v.view(), heap.view()) {
            Some(n) => native_items(n),
            None => None,
        }),
{
    match referred_object(v, heap) {
        Some(o) => object_items(o),
        None => None,
    }
}

/// Element count of a shim collection; `None` for what is not one.
pub fn native_coll_count(v: &Value, heap: &Heap) -> (r: Option<usize>)
    ensures
        (match r {
            Some(n) => Some(n as nat),
            None => None,
        }) == (match referred(v.view(), heap.view()) {
            Some(n) => match native_items(n) {
                Some(items) => Some(items.len()),
                None => None,
            },
            None => None,
        }),
{
    match referred_object(v, heap) {
        Some(NativeObject::ArrayList(l)) => Some(l.items.len()),
        Some(NativeObject::HashItems(s)) => Some(items_len(&s.items)),
        Some(NativeObject::HashTable(m)) => Some(table_len(&m.inner)),
        _ => None,
    }
}

fn char_value(c: char) -> (r: Value)
    ensures
        r.view() == char_val(c),
{
    Value::Char(c)
}

fn char_values(s: &str) -> (r: Vec<Value>)
    ensures
        vals(r@) == char_vals(s@),
{
    let mut r: Vec<Value> = Vec::new();
    for c in it: s.chars()
        invariant
            it.seq() == s@,
            r@.len() == it.index(),
            forall|j: int| 0 <= j < it.index() ==> (#[trigger] r@[j]).view() == char_val(s@[j]),
    {
        r.push(char_value(c));
    }
    assert(vals(r@) =~= char_vals(s@));
    r
}

fn long_values(a: &Vec<i64>) -> (r: Vec<Value>)
    ensures
        vals(r@) == a@.map_values(|n: i64| Val::Long(n)),
{
    let mut r: Vec<Value> = Vec::new();
    for i in 0..a.len()
        invariant
            r@.len() == i,
            forall|j: int| 0 <= j < i ==> (#[trigger] r@[j]).view() == Val::Long(a@[j]),
    {
        r.push(Value::Long(a[i]));
    }
    assert(vals(r@) =~= a@.map_values(|n: i64| Val::Long(n)));
    r
}

fn double_values(a: &Vec<u64>) -> (r: Vec<Value>)
    ensures
        vals(r@) == a@.map_values(|d: u64| Val::Double(d)),
{
    let mut r: Vec<Value> = Vec::new();
    for i in 0..a.len()
        invariant
            r@.len() == i,
            forall|j: int| 0 <= j < i ==> (#[trigger] r@[j]).view() == Val::Double(a@[j]),
    {
        r.push(Value::Double(a[i]));
    }
    assert(vals(r@) =~= a@.map_values(|d: u64| Val::Double(d)));
    r
}

fn pair_vectors(pairs: &Vec<(Value, Value)>) -> (r: Vec<Value>)
    ensures
        vals(r@) == entry_vectors(pair_vals(pairs@)),
{
    let mut r: Vec<Value> = Vec::new();
    for i in 0..pairs.len()
        invariant
            r@.len() == i,
            forall|j: int|
                0 <= j < i ==> (#[trigger] r@[j]).view() == entry_vector(pair_vals(pairs@)[j]),
    {
        r.push(entry_value_vector(&pairs[i].0, &pairs[i].1));
    }
    assert(vals(r@) =~= entry_vectors(pair_vals(pairs@)));
    r
}

/// The elements of a value as a sequence. Maps give `[key value]` entries, strings their
/// characters; a value without elements is an error.
pub fn value_to_seq(v: &Value, heap: &Heap) -> (r: ValueResult<Vec<Value>>)
    ensures
        match r {
            Ok(items) => seq_items(v.view(), heap.view()) == Some(vals(items@)),
            Err(e) => seq_items(v.view(), heap.view()) is None && e.view() == not_a_seq(v.view()),
        },
{
    proof {
        lemma_views(*v);
    }
    match v {
        Value::Nil => {
            let none: Vec<Value> = Vec::new();
            assert(vals(none@) =~= Seq::empty());
            Ok(none)
        },
        Value::List(items) => Ok(values_copy(items)),
        Value::Vector(items) => Ok(values_copy(items)),
        Value::HashSet(items) => Ok(values_copy(items)),
        Value::ObjectArray(items) => Ok(values_copy(items)),
        Value::HashMap(pairs) => Ok(pair_vectors(pairs)),
        Value::Str(s) => Ok(char_values(s.as_str())),
        Value::LongArray(a) => Ok(long_values(a)),
        Value::DoubleArray(a) => Ok(double_values(a)),
        Value::NativeObject(_) => match native_coll_items(v, heap) {
            Some(items) => Ok(items),
            None => Err(ValueError::wrong_type("seqable", v)),
        },
        _ => Err(ValueError::wrong_type("seqable", v)),
    }
}

// ---------------------------------------------------------------------------
// Outcomes
// ---------------------------------------------------------------------------

/// What a method call came to.
pub open spec fn outcome(r: ValueResult<Value>) -> Result<Val, Failure> {
    match r {
        Ok(v) => Ok(v.view()),
        Err(e) => Err(e.view()),
    }
}

/// What a method call came to; `None` where the object has no such method.
pub open spec fn answer(r: Option<ValueResult<Value>>) -> Option<Result<Val, Failure>> {
    match r {
        Some(r) => Some(outcome(r)),
        None => None,
    }
}

/// The value, or nil.
pub open spec fn or_nil(v: Option<Val>) -> Val {
    match v {
        Some(v) => v,
        None => Val::Nil,
    }
}

/// This value.
pub open spec fn gives(v: Val) -> Option<Result<Val, Failure>> {
    Some(Ok(v))
}

/// A failure with this message.
pub open spec fn fails(message: Seq<char>) -> Option<Result<Val, Failure>> {
    Some(Err(Failure::Other(message)))
}

/// A length as a value.
pub open spec fn length_val(n: nat) -> Val {
    Val::Long(n as i64)
}

fn length_value(n: usize) -> (r: Value)
    ensures
        r.view() == length_val(n as nat),
{
    Value::Long(n as i64)
}

fn value_or_nil(v: Option<Value>) -> (r: Value)
    ensures
        r.view() == or_nil(optional(v)),
{
    match v {
        Some(v) => v,
        None => Value::Nil,
    }
}

fn copy_or_nil(v: Option<&Value>) -> (r: Value)
    ensures
        r.view() == or_nil(optional_ref(v)),
{
    match v {
        Some(v) => value_copy(v),
        None => Value::Nil,
    }
}

fn fail(message: &str) -> (r: Option<ValueResult<Value>>)
    ensures
        answer(r) == fails(message@),
{
    Some(Err(ValueError::other(message)))
}

fn vector_value(items: Vec<Value>) -> (r: Value)
    ensures
        r.view() == Val::Vector(vals(items@)),
{
    let r = Value::Vector(items);
    proof {
        lemma_views(r);
    }
    r
}

fn array_value(items: Vec<Value>) -> (r: Value)
    ensures
        r.view() == Val::ObjectArray(vals(items@)),
{
    let r = Value::ObjectArray(items);
    proof {
        lemma_views(r);
    }
    r
}

// ---------------------------------------------------------------------------
// java.util.HashMap
// ---------------------------------------------------------------------------

/// The entries with those of `more` bound one after the other.
pub open spec fn rebound_all(entries: Seq<(Val, Val)>, more: Seq<(Val, Val)>) -> Seq<(Val, Val)>
    decreases more.len(),
{
    if more.len() == 0 {
        entries
    } else {
        rebound(rebound_all(entries, more.drop_last()), more.last().0, more.last().1)
    }
}

/// The entries that `.putAll` takes from its argument.
pub open spec fn put_all_entries(arg: Val, heap: Seq<Native>) -> Option<Seq<(Val, Val)>> {
    match arg {
        Val::HashMap(entries) => Some(entries),
        Val::NativeObject(_) => match referred(arg, heap) {
            Some(Native::HashTable(entries)) => Some(entries),
            _ => Some(Seq::empty()),
        },
        _ => None,
    }
}

/// A method call on a map: the entries after it, and what it came to.
pub open spec fn map_call(
    entries: Seq<(Val, Val)>,
    method: Seq<char>,
    args: Seq<Val>,
    heap: Seq<Native>,
) -> (Seq<(Val, Val)>, Option<Result<Val, Failure>>) {
    if method == "get"@ {
        (entries, Some(Ok(if args.len() > 0 { or_nil(entry_value(entries, args[0])) } else { Val::Nil })))
    } else if method == "put"@ {
        if args.len() < 2 {
            (entries, fails(".put requires key and value"@))
        } else {
            (
                rebound(entries, args[0], args[1]),
                Some(Ok(or_nil(entry_value(entries, args[0])))),
            )
        }
    } else if method == "putAll"@ {
        if args.len() == 0 || put_all_entries(args[0], heap) is None {
            (entries, fails(".putAll requires a map"@))
        } else {
            (rebound_all(entries, put_all_entries(args[0], heap)->0), Some(Ok(Val::Nil)))
        }
    } else if method == "containsKey"@ {
        (
            entries,
            Some(Ok(Val::Bool(args.len() > 0 && key_position(entries, args[0]) is Some))),
        )
    } else if method == "putIfAbsent"@ {
        if args.len() < 2 {
            (entries, fails(".putIfAbsent requires key and value"@))
        } else if key_position(entries, args[0]) is Some {
            (entries, Some(Ok(or_nil(entry_value(entries, args[0])))))
        } else {
            (rebound(entries, args[0], args[1]), Some(Ok(Val::Nil)))
        }
    } else if method == "remove"@ {
        if args.len() == 0 {
            (entries, Some(Ok(Val::Nil)))
        } else {
            (without_key(entries, args[0]), Some(Ok(or_nil(entry_value(entries, args[0])))))
        }
    } else if method == "size"@ {
        (entries, Some(Ok(length_val(entries.len()))))
    } else if method == "isEmpty"@ {
        (entries, Some(Ok(Val::Bool(entries.len() == 0))))
    } else if method == "clear"@ {
        (Seq::empty(), Some(Ok(Val::Nil)))
    } else if method == "values"@ {
        (entries, Some(Ok(Val::Vector(entries.map_values(|e: (Val, Val)| e.1)))))
    } else if method == "keySet"@ {
        (entries, Some(Ok(Val::Vector(entries.map_values(|e: (Val, Val)| e.0)))))
    } else if method == "entrySet"@ {
        (entries, Some(Ok(Val::Vector(entry_vectors(entries)))))
    } else {
        (entries, None)
    }
}

fn table_keys(t: &ValueTable) -> (r: Vec<Value>)
    ensures
        vals(r@) == table_entries(*t).map_values(|e: (Val, Val)| e.0),
{
    let entries = table_iter(t);
    let mut r: Vec<Value> = Vec::new();
    for i in 0..entries.len()
        invariant
            r@.len() == i,
            entries@.len() == table_entries(*t).len(),
            forall|j: int|
                0 <= j < entries@.len() ==> (#[trigger] entries@[j]).0.view() == table_entries(
                    *t,
                )[j].0,
            forall|j: int| 0 <= j < i ==> (#[trigger] r@[j]).view() == table_entries(*t)[j].0,
    {
        r.push(value_copy(entries[i].0));
    }
    assert(vals(r@) =~= table_entries(*t).map_values(|e: (Val, Val)| e.0));
    r
}

fn table_values(t: &ValueTable) -> (r: Vec<Value>)
    ensures
        vals(r@) == table_entries(*t).map_values(|e: (Val, Val)| e.1),
{
    let entries = table_iter(t);
    let mut r: Vec<Value> = Vec::new();
    for i in 0..entries.len()
        invariant
            r@.len() == i,
            entries@.len() == table_entries(*t).len(),
            forall|j: int|
                0 <= j < entries@.len() ==> (#[trigger] entries@[j]).1.view() == table_entries(
                    *t,
                )[j].1,
            forall|j: int| 0 <= j < i ==> (#[trigger] r@[j]).view() == table_entries(*t)[j].1,
    {
        r.push(value_copy(entries[i].1));
    }
    assert(vals(r@) =~= table_entries(*t).map_values(|e: (Val, Val)| e.1));
    r
}

fn table_pairs(t: &ValueTable) -> (r: Vec<(Value, Value)>)
    ensures
        pair_vals(r@) == table_entries(*t),
{
    let entries = table_iter(t);
    let mut r: Vec<(Value, Value)> = Vec::new();
    for i in 0..entries.len()
        invariant
            r@.len() == i,
            entries@.len() == table_entries(*t).len(),
            forall|j: int|
                0 <= j < entries@.len() ==> (#[trigger] entries@[j]).0.view() == table_entries(
                    *t,
                )[j].0,
            forall|j: int|
                0 <= j < entries@.len() ==> (#[trigger] entries@[j]).1.view() == table_entries(
                    *t,
                )[j].1,
            forall|j: int|
                0 <= j < i ==> (#[trigger] r@[j]).0.view() == table_entries(*t)[j].0
                    && r@[j].1.view() == table_entries(*t)[j].1,
    {
        r.push((value_copy(entries[i].0), value_copy(entries[i].1)));
    }
    assert(pair_vals(r@) =~= table_entries(*t));
    r
}

fn table_put_all(t: &mut ValueTable, pairs: &Vec<(Value, Value)>)
    ensures
        table_entries(*final(t)) == rebound_all(table_entries(*old(t)), pair_vals(pairs@)),
{
    let ghost all = pair_vals(pairs@);
    let ghost before = table_entries(*t);
    assert(all.take(0) =~= Seq::empty());
    for i in 0..pairs.len()
        invariant
            all == pair_vals(pairs@),
            table_entries(*t) == rebound_all(before, all.take(i as int)),
    {
        proof {
            let seen = all.take(i + 1);
            assert(seen.drop_last() =~= all.take(i as int));
            assert(seen.last() == all[i as int]);
        }
        let _old = table_insert(t, value_copy(&pairs[i].0), value_copy(&pairs[i].1));
    }
    assert(all.take(all.len() as int) =~= all);
}

/// The entries that `.putAll` takes from its argument.
fn put_all_pairs(arg: &Value, heap: &Heap) -> (r: Option<Vec<(Value, Value)>>)
    ensures
        (match r {
            Some(pairs) => Some(pair_vals(pairs@)),
            None => None,
        }) == put_all_entries(arg.view(), heap.view()),
{
    proof {
        lemma_views(*arg);
    }
    match arg {
        Value::HashMap(pairs) => Some(crate::value::pairs_copy(pairs)),
        Value::NativeObject(_) => match referred_object(arg, heap) {
            Some(NativeObject::HashTable(m)) => Some(table_pairs(&m.inner)),
            _ => {
                let none: Vec<(Value, Value)> = Vec::new();
                assert(pair_vals(none@) =~= Seq::empty());
                Some(none)
            },
        },
        _ => None,
    }
}

fn map_reads(t: &ValueTable, method: &str, args: &[Value]) -> (r: Option<ValueResult<Value>>)
    ensures
        forall|heap: Seq<Native>|
            r is Some ==> #[trigger] map_call(table_entries(*t), method@, vals(args@), heap) == (
                table_entries(*t),
                answer(r),
            ),
        r is None ==> method@ != "get"@ && method@ != "containsKey"@ && method@ != "size"@ && method@
            != "isEmpty"@ && method@ != "values"@ && method@ != "keySet"@ && method@ != "entrySet"@,
{
    let ghost entries = table_entries(*t);
    proof {
        reveal_names();
    }
    if same_text(method, "get") {
        if args.len() > 0 {
            assert(vals(args@)[0] == args@[0].view());
            Some(Ok(copy_or_nil(table_get(t, &args[0]))))
        } else {
            Some(Ok(Value::Nil))
        }
    } else if same_text(method, "containsKey") {
        if args.len() > 0 {
            assert(vals(args@)[0] == args@[0].view());
            Some(Ok(Value::Bool(table_get(t, &args[0]).is_some())))
        } else {
            Some(Ok(Value::Bool(false)))
        }
    } else if same_text(method, "size") {
        Some(Ok(length_value(table_len(t))))
    } else if same_text(method, "isEmpty") {
        Some(Ok(Value::Bool(table_len(t) == 0)))
    } else if same_text(method, "values") {
        Some(Ok(vector_value(table_values(t))))
    } else if same_text(method, "keySet") {
        Some(Ok(vector_value(table_keys(t))))
    } else if same_text(method, "entrySet") {
        Some(Ok(vector_value(table_vectors(t))))
    } else {
        None
    }
}

/// The names of the map's methods are different texts.
proof fn reveal_names()
    ensures
        "get"@ != "put"@,
        "containsKey"@ != "get"@,
        "containsKey"@ != "put"@,
        "containsKey"@ != "putAll"@,
        "size"@.len() == 4,
        "get"@.len() == 3,
        "put"@.len() == 3,
        "putAll"@.len() == 6,
        "containsKey"@.len() == 11,
        "putIfAbsent"@.len() == 11,
        "containsKey"@ != "putIfAbsent"@,
        "remove"@.len() == 6,
        "isEmpty"@.len() == 7,
        "clear"@.len() == 5,
        "values"@.len() == 6,
        "values"@ != "putAll"@,
        "values"@ != "remove"@,
        "keySet"@.len() == 6,
        "keySet"@ != "putAll"@,
        "keySet"@ != "remove"@,
        "entrySet"@.len() == 8,
{
    reveal_strlit("get");
    reveal_strlit("put");
    reveal_strlit("containsKey");
    reveal_strlit("putAll");
    reveal_strlit("putIfAbsent");
    reveal_strlit("remove");
    reveal_strlit("size");
    reveal_strlit("isEmpty");
    reveal_strlit("clear");
    reveal_strlit("values");
    reveal_strlit("keySet");
    reveal_strlit("entrySet");
    assert("get"@[0] == 'g' && "put"@[0] == 'p' && "putAll"@[0] == 'p' && "containsKey"@[0] == 'c'
        && "putIfAbsent"@[0] == 'p' && "remove"@[0] == 'r' && "values"@[0] == 'v' && "keySet"@[0]
        == 'k');
}

/// Method dispatch for a map: the `java.util.Map` subset scripts use; `None` for any other method.
pub fn dispatch(map: &mut JavaHashMap, method: &str, args: &[Value], heap: &Heap) -> (r: Option<
    ValueResult<Value>,
>)
    ensures
        (table_entries(final(map).inner), answer(r)) == map_call(
            table_entries(old(map).inner),
            method@,
            vals(args@),
            heap.view(),
        ),
{
    let ghost entries = table_entries(map.inner);
    proof {
        reveal_names();
    }
    match map_reads(&map.inner, method, args) {
        Some(r) => {
            return Some(r);
        },
        None => {},
    }
    if same_text(method, "put") {
        if args.len() < 2 {
            return fail(".put requires key and value");
        }
        assert(vals(args@)[0] == args@[0].view() && vals(args@)[1] == args@[1].view());
        let old_value = table_insert(&mut map.inner, value_copy(&args[0]), value_copy(&args[1]));
        Some(Ok(value_or_nil(old_value)))
    } else if same_text(method, "putAll") {
        if args.len() == 0 {
            return fail(".putAll requires a map");
        }
        assert(vals(args@)[0] == args@[0].view());
        match put_all_pairs(&args[0], heap) {
            Some(pairs) => {
                table_put_all(&mut map.inner, &pairs);
                Some(Ok(Value::Nil))
            },
            None => fail(".putAll requires a map"),
        }
    } else if same_text(method, "putIfAbsent") {
        if args.len() < 2 {
            return fail(".putIfAbsent requires key and value");
        }
        assert(vals(args@)[0] == args@[0].view() && vals(args@)[1] == args@[1].view());
        match table_get(&map.inner, &args[0]) {
            Some(existing) => {
                return Some(Ok(value_copy(existing)));
            },
            None => {},
        }
        let _old = table_insert(&mut map.inner, value_copy(&args[0]), value_copy(&args[1]));
        Some(Ok(Value::Nil))
    } else if same_text(method, "remove") {
        if args.len() == 0 {
            return Some(Ok(Value::Nil));
        }
        assert(vals(args@)[0] == args@[0].view());
        let gone = table_remove(&mut map.inner, &args[0]);
        Some(Ok(value_or_nil(gone)))
    } else if same_text(method, "clear") {
        table_clear(&mut map.inner);
        assert(table_entries(map.inner) =~= Seq::empty());
        Some(Ok(Value::Nil))
    } else {
        None
    }
}

// ---------------------------------------------------------------------------
// java.util.Iterator
// ---------------------------------------------------------------------------

/// A method call on an iterator: what is left after it, and what it came to.
pub open spec fn iterator_call(items: Seq<Val>, method: Seq<char>) -> (
    Seq<Val>,
    Option<Result<Val, Failure>>,
) {
    if method == "hasNext"@ {
        (items, Some(Ok(Val::Bool(items.len() > 0))))
    } else if method == "next"@ {
        if items.len() > 0 {
            (items.remove(0), Some(Ok(items[0])))
        } else {
            (items, fails("NoSuchElementException: iterator exhausted"@))
        }
    } else {
        (items, None)
    }
}

/// Take the first of a list of values.
fn take_first(items: &mut Vec<Value>) -> (r: Option<Value>)
    ensures
        optional(r) == if old(items)@.len() > 0 {
            Some(old(items)@[0].view())
        } else {
            None
        },
        vals(final(items)@) == if old(items)@.len() > 0 {
            vals(old(items)@).remove(0)
        } else {
            vals(old(items)@)
        },
{
    let ghost before = items@;
    if items.len() > 0 {
        let v = items.remove(0);
        assert(vals(items@) =~= vals(before).remove(0));
        Some(v)
    } else {
        None
    }
}

pub fn dispatch_iterator(it: &mut JavaIterator, method: &str) -> (r: Option<ValueResult<Value>>)
    ensures
        (vals(final(it).items@), answer(r)) == iterator_call(vals(old(it).items@), method@),
{
    if same_text(method, "hasNext") {
        Some(Ok(Value::Bool(it.items.len() > 0)))
    } else if same_text(method, "next") {
        match take_first(&mut it.items) {
            Some(v) => Some(Ok(v)),
            None => fail("NoSuchElementException: iterator exhausted"),
        }
    } else {
        None
    }
}

// ---------------------------------------------------------------------------
// java.util.ArrayList
// ---------------------------------------------------------------------------

/// The position of the first element that equals `v`.
pub open spec fn first_item(items: Seq<Val>, v: Val) -> Option<int>
    decreases items.len(),
{
    if items.len() == 0 {
        None
    } else if first_item(items.drop_last(), v) is Some {
        first_item(items.drop_last(), v)
    } else if same(items.last(), v) {
        Some(items.len() - 1)
    } else {
        None
    }
}

/// A position that an index argument names.
pub open spec fn index_of(args: Seq<Val>) -> Option<int> {
    if args.len() > 0 {
        match args[0] {
            Val::Long(n) => if n >= 0 {
                Some(n as int)
            } else {
                None
            },
            _ => None,
        }
    } else {
        None
    }
}

/// The failure of an index beyond the list.
pub open spec fn out_of_bounds(i: int, len: nat) -> Option<Result<Val, Failure>> {
    fails("IndexOutOfBoundsException: "@ + digits(i as nat) + " of "@ + digits(len))
}

/// `.add` on a list.
pub open spec fn list_add(items: Seq<Val>, args: Seq<Val>) -> (
    Seq<Val>,
    Option<Result<Val, Failure>>,
) {
    if args.len() == 1 {
        (items.push(args[0]), Some(Ok(Val::Bool(true))))
    } else if args.len() >= 2 && index_of(args) is Some && index_of(args)->0 <= items.len() {
        (items.insert(index_of(args)->0, args[1]), Some(Ok(Val::Nil)))
    } else {
        (items, fails(".add requires (value) or (index value)"@))
    }
}

/// `.addAll` on a list.
pub open spec fn list_add_all(items: Seq<Val>, args: Seq<Val>, heap: Seq<Native>) -> (
    Seq<Val>,
    Option<Result<Val, Failure>>,
) {
    if args.len() == 0 {
        (items, fails(".addAll requires a collection"@))
    } else {
        match seq_items(args[0], heap) {
            Some(more) => (items + more, Some(Ok(Val::Bool(more.len() > 0)))),
            None => (items, Some(Err(not_a_seq(args[0])))),
        }
    }
}

/// `.get` on a list.
pub open spec fn list_get(items: Seq<Val>, args: Seq<Val>) -> Option<Result<Val, Failure>> {
    match index_of(args) {
        Some(i) => if i < items.len() {
            Some(Ok(items[i]))
        } else {
            out_of_bounds(i, items.len())
        },
        None => fails(".get requires a non-negative index"@),
    }
}

/// `.set` on a list.
pub open spec fn list_set(items: Seq<Val>, args: Seq<Val>) -> (
    Seq<Val>,
    Option<Result<Val, Failure>>,
) {
    match index_of(args) {
        Some(i) => if args.len() < 2 {
            (items, fails(".set requires index and value"@))
        } else if i < items.len() {
            (items.update(i, args[1]), Some(Ok(items[i])))
        } else {
            (items, out_of_bounds(i, items.len()))
        },
        None => (items, fails(".set requires a non-negative index"@)),
    }
}

/// `.remove` on a list: an integer within it removes by index and gives the element, anything else
/// removes the first equal element and says whether there was one.
pub open spec fn list_remove(items: Seq<Val>, args: Seq<Val>) -> (
    Seq<Val>,
    Option<Result<Val, Failure>>,
) {
    if args.len() == 0 {
        (items, fails(".remove requires an argument"@))
    } else if index_of(args) is Some && index_of(args)->0 < items.len() {
        (items.remove(index_of(args)->0), Some(Ok(items[index_of(args)->0])))
    } else {
        match first_item(items, args[0]) {
            Some(i) => (items.remove(i), Some(Ok(Val::Bool(true)))),
            None => (items, Some(Ok(Val::Bool(false)))),
        }
    }
}

/// A method call on a list: the elements after it, and what it came to.
pub open spec fn list_call(
    items: Seq<Val>,
    method: Seq<char>,
    args: Seq<Val>,
    heap: Seq<Native>,
) -> (Seq<Val>, Option<Result<Val, Failure>>) {
    if method == "add"@ {
        list_add(items, args)
    } else if method == "addAll"@ {
        list_add_all(items, args, heap)
    } else if method == "get"@ {
        (items, list_get(items, args))
    } else if method == "set"@ {
        list_set(items, args)
    } else if method == "remove"@ {
        list_remove(items, args)
    } else if method == "contains"@ {
        (
            items,
            Some(Ok(Val::Bool(args.len() > 0 && first_item(items, args[0]) is Some))),
        )
    } else if method == "indexOf"@ {
        (
            items,
            Some(
                Ok(
                    Val::Long(
                        if args.len() > 0 && first_item(items, args[0]) is Some {
                            (first_item(items, args[0])->0) as i64
                        } else {
                            (-1) as i64
                        },
                    ),
                ),
            ),
        )
    } else if method == "size"@ {
        (items, Some(Ok(length_val(items.len()))))
    } else if method == "isEmpty"@ {
        (items, Some(Ok(Val::Bool(items.len() == 0))))
    } else if method == "clear"@ {
        (Seq::empty(), Some(Ok(Val::Nil)))
    } else if method == "toArray"@ {
        (items, Some(Ok(Val::ObjectArray(items))))
    } else {
        (items, None)
    }
}

pub proof fn lemma_first_item(items: Seq<Val>, v: Val)
    ensures
        match first_item(items, v) {
            Some(i) => 0 <= i < items.len() && same(items[i], v) && forall|j: int|
                0 <= j < i ==> !same(#[trigger] items[j], v),
            None => forall|j: int| 0 <= j < items.len() ==> !same(#[trigger] items[j], v),
        },
    decreases items.len(),
{
    if items.len() > 0 {
        let rest = items.drop_last();
        lemma_first_item(rest, v);
        assert forall|j: int| 0 <= j < rest.len() implies rest[j] == #[trigger] items[j] by {}
    }
}

/// The position of the first element that equals `v`.
fn position_of(items: &Vec<Value>, v: &Value) -> (r: Option<usize>)
    ensures
        (match r {
            Some(i) => Some(i as int),
            None => None,
        }) == first_item(vals(items@), v.view()),
        r matches Some(i) ==> i < items@.len(),
{
    let ghost all = vals(items@);
    proof {
        lemma_first_item(all, v.view());
    }
    for i in 0..items.len()
        invariant
            all == vals(items@),
            match first_item(all, v.view()) {
                Some(i) => 0 <= i < all.len() && same(all[i], v.view()) && forall|j: int|
                    0 <= j < i ==> !same(#[trigger] all[j], v.view()),
                None => forall|j: int| 0 <= j < all.len() ==> !same(#[trigger] all[j], v.view()),
            },
            forall|j: int| 0 <= j < i ==> !same(#[trigger] all[j], v.view()),
    {
        if equal(&items[i], v) {
            assert(same(all[i as int], v.view()));
            return Some(i);
        }
    }
    None
}

/// The position that an index argument names.
pub fn index_arg(args: &[Value]) -> (r: Option<u64>)
    ensures
        (match r {
            Some(i) => Some(i as int),
            None => None,
        }) == index_of(vals(args@)),
{
    if args.len() == 0 {
        return None;
    }
    assert(vals(args@)[0] == args@[0].view());
    match &args[0] {
        Value::Long(n) => if *n >= 0 {
            Some(*n as u64)
        } else {
            None
        },
        _ => None,
    }
}

fn bounds_failure(i: u64, len: usize) -> (r: Option<ValueResult<Value>>)
    ensures
        answer(r) == out_of_bounds(i as int, len as nat),
{
    let mut m = text_copy("IndexOutOfBoundsException: ");
    push_digits(&mut m, i);
    push_text(&mut m, " of ");
    push_digits(&mut m, len as u64);
    Some(Err(ValueError::Other(m)))
}

fn list_changes(items: &mut Vec<Value>, method: &str, args: &[Value]) -> (r: Option<
    ValueResult<Value>,
>)
    requires
        method@ == "get"@ || method@ == "set"@ || method@ == "remove"@,
        "get"@ != "set"@,
        "get"@ != "remove"@,
        "set"@ != "remove"@,
    ensures
        (vals(final(items)@), answer(r)) == (if method@ == "get"@ {
            (vals(old(items)@), list_get(vals(old(items)@), vals(args@)))
        } else if method@ == "set"@ {
            list_set(vals(old(items)@), vals(args@))
        } else {
            list_remove(vals(old(items)@), vals(args@))
        }),
{
    let ghost before = items@;
    let index = index_arg(args);
    proof {
        assert forall|i: int| 0 <= i < args@.len() implies #[trigger] vals(args@)[i]
            == args@[i].view() by {}
        assert forall|i: int| 0 <= i < before.len() implies #[trigger] vals(before)[i]
            == before[i].view() by {}
    }
    if same_text(method, "get") {
        match index {
            Some(i) => if i < items.len() as u64 {
                Some(Ok(value_copy(&items[i as usize])))
            } else {
                bounds_failure(i, items.len())
            },
            None => fail(".get requires a non-negative index"),
        }
    } else if same_text(method, "set") {
        match index {
            Some(i) => if args.len() < 2 {
                fail(".set requires index and value")
            } else if i < items.len() as u64 {
                let old_value = value_copy(&items[i as usize]);
                items.set(i as usize, value_copy(&args[1]));
                assert(vals(items@) =~= vals(before).update(i as int, args@[1].view()));
                Some(Ok(old_value))
            } else {
                bounds_failure(i, items.len())
            },
            None => fail(".set requires a non-negative index"),
        }
    } else {
        if args.len() == 0 {
            return fail(".remove requires an argument");
        }
        match index {
            Some(i) => {
                if i < items.len() as u64 {
                    let gone = items.remove(i as usize);
                    assert(vals(items@) =~= vals(before).remove(i as int));
                    return Some(Ok(gone));
                }
            },
            None => {},
        }
        match position_of(items, &args[0]) {
            Some(at) => {
                let _gone = items.remove(at);
                assert(vals(items@) =~= vals(before).remove(at as int));
                Some(Ok(Value::Bool(true)))
            },
            None => Some(Ok(Value::Bool(false))),
        }
    }
}

fn append_values(items: &mut Vec<Value>, more: &Vec<Value>)
    ensures
        vals(final(items)@) == vals(old(items)@) + vals(more@),
{
    let ghost before = vals(items@);
    assert(vals(more@).take(0) =~= Seq::empty());
    assert(before + Seq::empty() =~= before);
    for i in 0..more.len()
        invariant
            vals(items@) == before + vals(more@).take(i as int),
    {
        let ghost now = items@;
        items.push(value_copy(&more[i]));
        assert(vals(more@).take(i + 1) =~= vals(more@).take(i as int).push(vals(more@)[i as int]));
        assert(vals(items@) =~= vals(now).push(more@[i as int].view()));
        assert(vals(items@) =~= before + vals(more@).take(i + 1));
    }
    assert(vals(more@).take(more@.len() as int) =~= vals(more@));
}

fn list_growth(items: &mut Vec<Value>, method: &str, args: &[Value], heap: &Heap) -> (r: Option<
    ValueResult<Value>,
>)
    requires
        method@ == "add"@ || method@ == "addAll"@,
        "add"@ != "addAll"@,
    ensures
        (vals(final(items)@), answer(r)) == (if method@ == "add"@ {
            list_add(vals(old(items)@), vals(args@))
        } else {
            list_add_all(vals(old(items)@), vals(args@), heap.view())
        }),
{
    let ghost before = items@;
    proof {
        assert forall|i: int| 0 <= i < args@.len() implies #[trigger] vals(args@)[i]
            == args@[i].view() by {}
    }
    if same_text(method, "add") {
        if args.len() == 1 {
            items.push(value_copy(&args[0]));
            assert(vals(items@) =~= vals(before).push(args@[0].view()));
            return Some(Ok(Value::Bool(true)));
        }
        if args.len() >= 2 {
            match index_arg(args) {
                Some(i) => {
                    if i <= items.len() as u64 {
                        items.insert(i as usize, value_copy(&args[1]));
                        assert(vals(items@) =~= vals(before).insert(i as int, args@[1].view()));
                        return Some(Ok(Value::Nil));
                    }
                },
                None => {},
            }
        }
        fail(".add requires (value) or (index value)")
    } else {
        if args.len() == 0 {
            return fail(".addAll requires a collection");
        }
        match value_to_seq(&args[0], heap) {
            Ok(more) => {
                append_values(items, &more);
                assert(vals(more@).len() == more@.len());
                Some(Ok(Value::Bool(more.len() > 0)))
            },
            Err(e) => Some(Err(e)),
        }
    }
}

proof fn reveal_list_names()
    ensures
        "add"@ != "addAll"@,
        "get"@ != "set"@,
        "get"@ != "remove"@,
        "set"@ != "remove"@,
{
    reveal_strlit("add");
    reveal_strlit("addAll");
    reveal_strlit("get");
    reveal_strlit("set");
    reveal_strlit("remove");
    assert("get"@[0] == 'g' && "set"@[0] == 's');
    assert("add"@.len() == 3 && "addAll"@.len() == 6);
}

/// Method dispatch for a list.
pub fn dispatch_array_list(
    l: &mut JavaArrayList,
    method: &str,
    args: &[Value],
    heap: &Heap,
) -> (r: Option<ValueResult<Value>>)
    ensures
        (vals(final(l).items@), answer(r)) == list_call(
            vals(old(l).items@),
            method@,
            vals(args@),
            heap.view(),
        ),
{
    let ghost before = l.items@;
    proof {
        reveal_list_names();
        assert forall|i: int| 0 <= i < args@.len() implies #[trigger] vals(args@)[i]
            == args@[i].view() by {}
    }
    if same_text(method, "add") || same_text(method, "addAll") {
        list_growth(&mut l.items, method, args, heap)
    } else if same_text(method, "get") || same_text(method, "set") || same_text(method, "remove") {
        list_changes(&mut l.items, method, args)
    } else if same_text(method, "contains") {
        Some(Ok(Value::Bool(args.len() > 0 && position_of(&l.items, &args[0]).is_some())))
    } else if same_text(method, "indexOf") {
        if args.len() > 0 {
            match position_of(&l.items, &args[0]) {
                Some(i) => {
                    return Some(Ok(Value::Long(i as i64)));
                },
                None => {},
            }
        }
        Some(Ok(Value::Long(-1)))
    } else if same_text(method, "size") {
        Some(Ok(length_value(l.items.len())))
    } else if same_text(method, "isEmpty") {
        Some(Ok(Value::Bool(l.items.len() == 0)))
    } else if same_text(method, "clear") {
        l.items.clear();
        assert(vals(l.items@) =~= Seq::empty());
        Some(Ok(Value::Nil))
    } else if same_text(method, "toArray") {
        Some(Ok(array_value(values_copy(&l.items))))
    } else {
        None
    }
}

// ---------------------------------------------------------------------------
// java.util.HashSet
// ---------------------------------------------------------------------------

/// A method call on a set: the elements after it, and what it came to.
pub open spec fn set_call(
    items: Seq<Val>,
    method: Seq<char>,
    args: Seq<Val>,
    heap: Seq<Native>,
) -> (Seq<Val>, Option<Result<Val, Failure>>) {
    if method == "add"@ {
        if args.len() == 0 {
            (items, fails(".add requires an argument"@))
        } else {
            (
                with_item(items, args[0]),
                Some(Ok(Val::Bool(item_position(items, args[0]) is None))),
            )
        }
    } else if method == "addAll"@ {
        if args.len() == 0 {
            (items, fails(".addAll requires a collection"@))
        } else {
            match seq_items(args[0], heap) {
                Some(more) => (
                    with_items(items, more),
                    Some(Ok(Val::Bool(with_items(items, more).len() > items.len()))),
                ),
                None => (items, Some(Err(not_a_seq(args[0])))),
            }
        }
    } else if method == "contains"@ {
        (
            items,
            Some(Ok(Val::Bool(args.len() > 0 && item_position(items, args[0]) is Some))),
        )
    } else if method == "remove"@ {
        if args.len() == 0 {
            (items, Some(Ok(Val::Bool(false))))
        } else {
            (
                without_item(items, args[0]),
                Some(Ok(Val::Bool(item_position(items, args[0]) is Some))),
            )
        }
    } else if method == "size"@ {
        (items, Some(Ok(length_val(items.len()))))
    } else if method == "isEmpty"@ {
        (items, Some(Ok(Val::Bool(items.len() == 0))))
    } else if method == "clear"@ {
        (Seq::empty(), Some(Ok(Val::Nil)))
    } else if method == "toArray"@ {
        (items, Some(Ok(Val::ObjectArray(items))))
    } else {
        (items, None)
    }
}

/// Add each value; says whether any was new.
fn items_add_all(t: &mut ItemTable, more: &Vec<Value>) -> (changed: bool)
    ensures
        table_items(*final(t)) == with_items(table_items(*old(t)), vals(more@)),
        changed == (table_items(*final(t)).len() > table_items(*old(t)).len()),
{
    let ghost all = vals(more@);
    let ghost before = table_items(*t);
    assert(all.take(0) =~= Seq::empty());
    let mut changed = false;
    for i in 0..more.len()
        invariant
            all == vals(more@),
            table_items(*t) == with_items(before, all.take(i as int)),
            table_items(*t).len() >= before.len(),
            changed == (table_items(*t).len() > before.len()),
    {
        proof {
            let seen = all.take(i + 1);
            assert(seen.drop_last() =~= all.take(i as int));
            assert(seen.last() == all[i as int]);
        }
        let added = items_insert(t, value_copy(&more[i]));
        changed = changed || added;
    }
    assert(all.take(all.len() as int) =~= all);
    changed
}

/// Method dispatch for a set.
pub fn dispatch_hash_set(s: &mut JavaHashSet, method: &str, args: &[Value], heap: &Heap) -> (r:
    Option<ValueResult<Value>>)
    ensures
        (table_items(final(s).items), answer(r)) == set_call(
            table_items(old(s).items),
            method@,
            vals(args@),
            heap.view(),
        ),
{
    proof {
        assert forall|i: int| 0 <= i < args@.len() implies #[trigger] vals(args@)[i]
            == args@[i].view() by {}
    }
    if same_text(method, "add") {
        if args.len() == 0 {
            return fail(".add requires an argument");
        }
        let added = items_insert(&mut s.items, value_copy(&args[0]));
        Some(Ok(Value::Bool(added)))
    } else if same_text(method, "addAll") {
        if args.len() == 0 {
            return fail(".addAll requires a collection");
        }
        match value_to_seq(&args[0], heap) {
            Ok(more) => {
                let changed = items_add_all(&mut s.items, &more);
                Some(Ok(Value::Bool(changed)))
            },
            Err(e) => Some(Err(e)),
        }
    } else if same_text(method, "contains") {
        Some(Ok(Value::Bool(args.len() > 0 && items_contain(&s.items, &args[0]))))
    } else if same_text(method, "remove") {
        if args.len() == 0 {
            return Some(Ok(Value::Bool(false)));
        }
        let removed = items_remove(&mut s.items, &args[0]);
        Some(Ok(Value::Bool(removed)))
    } else if same_text(method, "size") {
        Some(Ok(length_value(items_len(&s.items))))
    } else if same_text(method, "isEmpty") {
        Some(Ok(Value::Bool(items_len(&s.items) == 0)))
    } else if same_text(method, "clear") {
        items_clear(&mut s.items);
        assert(table_items(s.items) =~= Seq::empty());
        Some(Ok(Value::Nil))
    } else if same_text(method, "toArray") {
        Some(Ok(array_value(item_copies(&s.items))))
    } else {
        None
    }
}

// ---------------------------------------------------------------------------
// java.util.concurrent.CompletableFuture
// ---------------------------------------------------------------------------

/// The first argument, or nil.
pub open spec fn first_or_nil(args: Seq<Val>) -> Val {
    if args.len() > 0 {
        args[0]
    } else {
        Val::Nil
    }
}

fn first_arg(args: &[Value]) -> (r: Value)
    ensures
        r.view() == first_or_nil(vals(args@)),
{
    if args.len() > 0 {
        assert(vals(args@)[0] == args@[0].view());
        value_copy(&args[0])
    } else {
        Value::Nil
    }
}

/// A method call on a future: the slot after it, and what it came to.
pub open spec fn future_call(slot: Option<Val>, method: Seq<char>, args: Seq<Val>) -> (
    Option<Val>,
    Option<Result<Val, Failure>>,
) {
    if method == "complete"@ {
        (
            if slot is None {
                Some(first_or_nil(args))
            } else {
                slot
            },
            Some(Ok(Val::Bool(slot is None))),
        )
    } else if method == "get"@ || method == "join"@ {
        (
            slot,
            match slot {
                Some(v) => Some(Ok(v)),
                None => fails(
                    "CompletableFuture.get: nothing delivered (single-threaded runtime would deadlock)"@,
                ),
            },
        )
    } else if method == "isDone"@ {
        (slot, Some(Ok(Val::Bool(slot is Some))))
    } else {
        (slot, None)
    }
}

/// Method dispatch for a future.
pub fn dispatch_completable_future(
    f: &mut JavaCompletableFuture,
    method: &str,
    args: &[Value],
) -> (r: Option<ValueResult<Value>>)
    ensures
        (optional(final(f).slot), answer(r)) == future_call(
            optional(old(f).slot),
            method@,
            vals(args@),
        ),
{
    if same_text(method, "complete") {
        let was_empty = f.slot.is_none();
        if was_empty {
            f.slot = Some(first_arg(args));
        }
        Some(Ok(Value::Bool(was_empty)))
    } else if same_text(method, "get") || same_text(method, "join") {
        match &f.slot {
            Some(v) => Some(Ok(value_copy(v))),
            None => fail(
                "CompletableFuture.get: nothing delivered (single-threaded runtime would deadlock)",
            ),
        }
    } else if same_text(method, "isDone") {
        Some(Ok(Value::Bool(f.slot.is_some())))
    } else {
        None
    }
}

// ---------------------------------------------------------------------------
// java.util.ArrayDeque
// ---------------------------------------------------------------------------

/// A method call on a deque, its head first: the elements after it, and what it came to.
pub open spec fn deque_call(items: Seq<Val>, method: Seq<char>, args: Seq<Val>) -> (
    Seq<Val>,
    Option<Result<Val, Failure>>,
) {
    if method == "push"@ || method == "addFirst"@ {
        (items.insert(0, first_or_nil(args)), Some(Ok(Val::Nil)))
    } else if method == "add"@ || method == "addLast"@ || method == "offer"@ {
        (items.push(first_or_nil(args)), Some(Ok(Val::Bool(true))))
    } else if method == "pop"@ || method == "removeFirst"@ {
        if items.len() > 0 {
            (items.remove(0), Some(Ok(items[0])))
        } else {
            (items, fails("NoSuchElementException: deque is empty"@))
        }
    } else if method == "poll"@ || method == "pollFirst"@ {
        if items.len() > 0 {
            (items.remove(0), Some(Ok(items[0])))
        } else {
            (items, Some(Ok(Val::Nil)))
        }
    } else if method == "peek"@ || method == "peekFirst"@ {
        (items, Some(Ok(first_or_nil(items))))
    } else if method == "isEmpty"@ {
        (items, Some(Ok(Val::Bool(items.len() == 0))))
    } else if method == "size"@ {
        (items, Some(Ok(length_val(items.len()))))
    } else if method == "clear"@ {
        (Seq::empty(), Some(Ok(Val::Nil)))
    } else {
        (items, None)
    }
}

/// Method dispatch for a deque: push, pop and peek work on the head.
pub fn dispatch_deque(dq: &mut JavaArrayDeque, method: &str, args: &[Value]) -> (r: Option<
    ValueResult<Value>,
>)
    ensures
        (vals(final(dq).items@), answer(r)) == deque_call(
            vals(old(dq).items@),
            method@,
            vals(args@),
        ),
{
    let ghost before = dq.items@;
    if same_text(method, "push") || same_text(method, "addFirst") {
        dq.items.insert(0, first_arg(args));
        assert(vals(dq.items@) =~= vals(before).insert(0, first_or_nil(vals(args@))));
        Some(Ok(Value::Nil))
    } else if same_text(method, "add") || same_text(method, "addLast") || same_text(
        method,
        "offer",
    ) {
        dq.items.push(first_arg(args));
        assert(vals(dq.items@) =~= vals(before).push(first_or_nil(vals(args@))));
        Some(Ok(Value::Bool(true)))
    } else if same_text(method, "pop") || same_text(method, "removeFirst") {
        match take_first(&mut dq.items) {
            Some(v) => Some(Ok(v)),
            None => fail("NoSuchElementException: deque is empty"),
        }
    } else if same_text(method, "poll") || same_text(method, "pollFirst") {
        let first = take_first(&mut dq.items);
        Some(Ok(value_or_nil(first)))
    } else if same_text(method, "peek") || same_text(method, "peekFirst") {
        Some(Ok(first_arg(dq.items.as_slice())))
    } else if same_text(method, "isEmpty") {
        Some(Ok(Value::Bool(dq.items.len() == 0)))
    } else if same_text(method, "size") {
        Some(Ok(length_value(dq.items.len())))
    } else if same_text(method, "clear") {
        dq.items.clear();
        assert(vals(dq.items@) =~= Seq::empty());
        Some(Ok(Value::Nil))
    } else {
        None
    }
}

// ---------------------------------------------------------------------------
// java.time.format.DateTimeFormatter
// ---------------------------------------------------------------------------

/// A method of the builder and configuration chain: it returns a fresh formatter.
pub open spec fn is_chain_method(method: Seq<char>) -> bool {
    method == "appendPattern"@ || method == "optionalStart"@ || method == "optionalEnd"@ || method
        == "appendFraction"@ || method == "appendOffset"@ || method == "parseDefaulting"@ || method
        == "toFormatter"@ || method == "withZone"@ || method == "appendValue"@ || method
        == "appendLiteral"@ || method == "parseLenient"@ || method == "parseStrict"@
}

fn chain_method(method: &str) -> (r: bool)
    ensures
        r == is_chain_method(method@),
{
    same_text(method, "appendPattern") || same_text(method, "optionalStart") || same_text(
        method,
        "optionalEnd",
    ) || same_text(method, "appendFraction") || same_text(method, "appendOffset") || same_text(
        method,
        "parseDefaulting",
    ) || same_text(method, "toFormatter") || same_text(method, "withZone") || same_text(
        method,
        "appendValue",
    ) || same_text(method, "appendLiteral") || same_text(method, "parseLenient") || same_text(
        method,
        "parseStrict",
    )
}

/// The milliseconds of an argument that `.format` takes.
pub open spec fn millis_arg(args: Seq<Val>) -> Option<i64> {
    if args.len() == 0 {
        None
    } else {
        match args[0] {
            Val::Instant(ms) => Some(ms),
            Val::Long(ms) => Some(ms),
            _ => None,
        }
    }
}

/// What the formatter's `.parse` comes to.
pub open spec fn formatter_parse(args: Seq<Val>) -> Option<Result<Val, Failure>> {
    if args.len() > 0 && args[0] is Str {
        let s = args[0]->Str_0;
        match inst_millis(encode_utf8(s)) {
            Some(ms) => Some(Ok(Val::Instant(ms as i64))),
            None => fails("DateTimeFormatter.parse: "@ + bad_inst(s)),
        }
    } else {
        fails(".parse expects a string"@)
    }
}

/// An instant that the formatter can write.
pub open spec fn writable_instant(ms: i64) -> bool {
    ms - (ms as int) % 1000 >= i64::MIN
}

fn parse_method(args: &[Value]) -> (r: Option<ValueResult<Value>>)
    ensures
        answer(r) == formatter_parse(vals(args@)),
{
    if args.len() == 0 {
        return fail(".parse expects a string");
    }
    assert(vals(args@)[0] == args@[0].view());
    match &args[0] {
        Value::Str(s) => match parse_rfc3339_millis(s.as_str()) {
            Ok(ms) => Some(Ok(Value::Instant(ms))),
            Err(e) => {
                let mut m = text_copy("DateTimeFormatter.parse: ");
                push_text(&mut m, e.as_str());
                Some(Err(ValueError::Other(m)))
            },
        },
        _ => fail(".parse expects a string"),
    }
}

fn format_method(args: &[Value]) -> (r: Option<ValueResult<Value>>)
    requires
        millis_arg(vals(args@)) matches Some(ms) ==> writable_instant(ms),
    ensures
        match millis_arg(vals(args@)) {
            Some(ms) => answer(r) matches Some(Ok(v)) && v is Str && is_inst_text(
                v->Str_0,
                ms as int,
            ),
            None => answer(r) == fails(".format expects an instant"@),
        },
{
    if args.len() == 0 {
        return fail(".format expects an instant");
    }
    assert(vals(args@)[0] == args@[0].view());
    match &args[0] {
        Value::Instant(ms) => Some(Ok(Value::Str(format_rfc3339_millis(*ms)))),
        Value::Long(ms) => Some(Ok(Value::Str(format_rfc3339_millis(*ms)))),
        _ => fail(".format expects an instant"),
    }
}

/// Method dispatch for a date formatter. The builder chain returns a fresh formatter; pattern
/// arguments are accepted and ignored.
pub fn dispatch_date_formatter(heap: &mut Heap, method: &str, args: &[Value]) -> (r: Option<
    ValueResult<Value>,
>)
    requires
        method@ == "format"@ ==> (millis_arg(vals(args@)) matches Some(ms) ==> writable_instant(ms)),
        old(heap).view().len() <= u64::MAX,
    ensures
        if is_chain_method(method@) {
            &&& final(heap).view() == old(heap).view().push(Native::DateFormatter)
            &&& answer(r) == gives(Val::NativeObject(old(heap).view().len() as u64))
        } else {
            &&& final(heap).view() == old(heap).view()
            &&& if method@ == "parse"@ {
                answer(r) == formatter_parse(vals(args@))
            } else if method@ == "format"@ {
                match millis_arg(vals(args@)) {
                    Some(ms) => answer(r) matches Some(Ok(v)) && v is Str && is_inst_text(
                        v->Str_0,
                        ms as int,
                    ),
                    None => answer(r) == fails(".format expects an instant"@),
                }
            } else {
                r is None
            }
        },
{
    if chain_method(method) {
        let formatter = heap.add_object(NativeObject::DateFormatter(JavaDateFormatter));
        Some(Ok(formatter))
    } else if same_text(method, "parse") {
        parse_method(args)
    } else if same_text(method, "format") {
        format_method(args)
    } else {
        None
    }
}

// ---------------------------------------------------------------------------
// java.lang.StringBuilder
// ---------------------------------------------------------------------------

/// The texts of a list of strings.
pub open spec fn texts(s: Seq<String>) -> Seq<Seq<char>> {
    Seq::new(s.len(), |i: int| s[i]@)
}

/// What a value adds to a text: nothing for nil, a string or a character itself, any other value
/// as printed.
pub open spec fn content(v: Val, printed: Seq<char>) -> Seq<char> {
    match v {
        Val::Nil => Seq::empty(),
        Val::Str(s) => s,
        Val::Char(c) => seq![c],
        _ => printed,
    }
}

/// The contents of the values one after the other.
pub open spec fn contents(args: Seq<Val>, printed: Seq<Seq<char>>) -> Seq<char>
    decreases args.len(),
{
    if args.len() == 0 {
        Seq::empty()
    } else {
        contents(args.drop_last(), printed) + content(args.last(), printed[args.len() - 1])
    }
}

/// A method call on a string builder: the text after it, and what it came to.
pub open spec fn builder_call(
    buf: Seq<char>,
    method: Seq<char>,
    args: Seq<Val>,
    printed: Seq<Seq<char>>,
) -> (Seq<char>, Option<Result<Val, Failure>>) {
    if method == "append"@ {
        (buf + contents(args, printed), Some(Ok(Val::Nil)))
    } else if method == "toString"@ {
        (buf, Some(Ok(Val::Str(buf))))
    } else if method == "length"@ {
        (buf, Some(Ok(length_val(buf.len()))))
    } else if method == "setLength"@ {
        (
            if args.len() > 0 && args[0] is Long && 0 <= args[0]->Long_0 < buf.len() {
                buf.take(args[0]->Long_0 as int)
            } else {
                buf
            },
            Some(Ok(Val::Nil)),
        )
    } else {
        (buf, fails("."@ + method + " not supported on StringBuilder"@))
    }
}

fn push_content(out: &mut String, v: &Value, printed: &str)
    ensures
        final(out)@ == old(out)@ + content(v.view(), printed@),
{
    let ghost before = out@;
    match v {
        Value::Nil => {
            assert(before + Seq::empty() =~= before);
        },
        Value::Str(s) => push_text(out, s.as_str()),
        Value::Char(c) => {
            out.push(*c);
            assert(out@ =~= before + seq![*c]);
        },
        _ => push_text(out, printed),
    }
}

/// Method dispatch for a string builder; `printed` holds each argument as it prints.
pub fn dispatch_string_builder(
    sb: &mut JavaStringBuilder,
    method: &str,
    args: &[Value],
    printed: &[String],
) -> (r: Option<ValueResult<Value>>)
    requires
        printed@.len() == args@.len(),
    ensures
        (final(sb).buf@, answer(r)) == builder_call(
            old(sb).buf@,
            method@,
            vals(args@),
            texts(printed@),
        ),
{
    let ghost before = sb.buf@;
    if same_text(method, "append") {
        let ghost all = vals(args@);
        assert(all.take(0) =~= Seq::empty());
        assert(before + Seq::empty() =~= before);
        for i in 0..args.len()
            invariant
                all == vals(args@),
                printed@.len() == args@.len(),
                sb.buf@ == before + contents(all.take(i as int), texts(printed@)),
        {
            let ghost now = sb.buf@;
            push_content(&mut sb.buf, &args[i], printed[i].as_str());
            proof {
                let seen = all.take(i + 1);
                assert(seen.drop_last() =~= all.take(i as int));
                assert(seen.last() == args@[i as int].view());
                assert(texts(printed@)[i as int] == printed@[i as int]@);
                assert(sb.buf@ =~= before + contents(seen, texts(printed@)));
            }
        }
        assert(all.take(all.len() as int) =~= all);
        Some(Ok(Value::Nil))
    } else if same_text(method, "toString") {
        Some(Ok(Value::Str(sb.buf.clone())))
    } else if same_text(method, "length") {
        let letters = chars_of(sb.buf.as_str());
        Some(Ok(length_value(letters.len())))
    } else if same_text(method, "setLength") {
        if args.len() > 0 {
            assert(vals(args@)[0] == args@[0].view());
            match &args[0] {
                Value::Long(n) => {
                    let letters = chars_of(sb.buf.as_str());
                    if *n >= 0 && (*n as u64) < letters.len() as u64 {
                        let keep: usize = *n as usize;
                        sb.buf = text_of(vstd::slice::slice_subrange(letters.as_slice(), 0, keep));
                        assert(sb.buf@ =~= before.take(keep as int));
                    }
                },
                _ => {},
            }
        }
        Some(Ok(Value::Nil))
    } else {
        let mut m = text_copy(".");
        push_text(&mut m, method);
        push_text(&mut m, " not supported on StringBuilder");
        Some(Err(ValueError::Other(m)))
    }
}

// ---------------------------------------------------------------------------
// Any shim
// ---------------------------------------------------------------------------

impl Heap {
    /// Put an object in the place of the one at `i`, and give that one.
    pub(crate) fn swap_object(&mut self, i: usize, object: NativeObject) -> (r: NativeObject)
        requires
            i < old(self).view().len(),
        ensures
            r.view() == old(self).view()[i as int],
            final(self).view() == old(self).view().update(i as int, object.view()),
    {
        let ghost before = self.view();
        let ghost held = object.view();
        let mut o = object;
        core::mem::swap(&mut self.objects[i], &mut o);
        assert(self.view() =~= before.update(i as int, held));
        o
    }
}

/// What a method call on the object at `h` does to the heap, and what it comes to. While the call
/// runs, the object itself is out of the heap that the arguments refer to.
pub open spec fn call_effect(
    before: Seq<Native>,
    h: int,
    method: Seq<char>,
    args: Seq<Val>,
    printed: Seq<Seq<char>>,
    after: Seq<Native>,
    result: Option<Result<Val, Failure>>,
) -> bool {
    let rest = before.update(h, Native::Object);
    match before[h] {
        Native::HashTable(entries) => {
            let (e, a) = map_call(entries, method, args, rest);
            after == before.update(h, Native::HashTable(e)) && result == a
        },
        Native::Iterator(items) => {
            let (i, a) = iterator_call(items, method);
            after == before.update(h, Native::Iterator(i)) && result == a
        },
        Native::ArrayList(items) => {
            let (i, a) = list_call(items, method, args, rest);
            after == before.update(h, Native::ArrayList(i)) && result == a
        },
        Native::CompletableFuture(slot) => {
            let (s, a) = future_call(slot, method, args);
            after == before.update(h, Native::CompletableFuture(s)) && result == a
        },
        Native::HashItems(items) => {
            let (i, a) = set_call(items, method, args, rest);
            after == before.update(h, Native::HashItems(i)) && result == a
        },
        Native::ArrayDeque(items) => {
            let (i, a) = deque_call(items, method, args);
            after == before.update(h, Native::ArrayDeque(i)) && result == a
        },
        Native::DateFormatter => if is_chain_method(method) {
            after == before.push(Native::DateFormatter) && result == gives(
                Val::NativeObject(before.len() as u64),
            )
        } else {
            &&& after == before
            &&& if method == "parse"@ {
                result == formatter_parse(args)
            } else if method == "format"@ {
                match millis_arg(args) {
                    Some(ms) => result matches Some(Ok(v)) && v is Str && is_inst_text(
                        v->Str_0,
                        ms as int,
                    ),
                    None => result == fails(".format expects an instant"@),
                }
            } else {
                result is None
            }
        },
        Native::StringBuilder(buf) => {
            let (b, a) = builder_call(buf, method, args, printed);
            after == before.update(h, Native::StringBuilder(b)) && result == a
        },
        _ => after == before && result is None,
    }
}

/// Route a method call on any shim; `None` for what is not one. `printed` holds each argument as
/// it prints.
pub fn dispatch_any(
    heap: &mut Heap,
    obj: u64,
    method: &str,
    args: &[Value],
    printed: &[String],
) -> (r: Option<ValueResult<Value>>)
    requires
        printed@.len() == args@.len(),
        method@ == "format"@ ==> (millis_arg(vals(args@)) matches Some(ms) ==> writable_instant(ms)),
        old(heap).view().len() <= u64::MAX,
    ensures
        if obj < old(heap).view().len() {
            call_effect(
                old(heap).view(),
                obj as int,
                method@,
                vals(args@),
                texts(printed@),
                final(heap).view(),
                answer(r),
            )
        } else {
            final(heap).view() == old(heap).view() && r is None
        },
{
    let ghost before = heap.view();
    if obj >= heap.objects.len() as u64 {
        return None;
    }
    let at: usize = obj as usize;
    let mut target = heap.swap_object(at, NativeObject::Object(JavaObject));
    let mut chained = false;
    let mut r: Option<ValueResult<Value>> = None;
    match &mut target {
        NativeObject::HashTable(m) => {
            r = dispatch(m, method, args, heap);
        },
        NativeObject::Iterator(it) => {
            r = dispatch_iterator(it, method);
        },
        NativeObject::ArrayList(l) => {
            r = dispatch_array_list(l, method, args, heap);
        },
        NativeObject::CompletableFuture(f) => {
            r = dispatch_completable_future(f, method, args);
        },
        NativeObject::HashItems(s) => {
            r = dispatch_hash_set(s, method, args, heap);
        },
        NativeObject::ArrayDeque(d) => {
            r = dispatch_deque(d, method, args);
        },
        NativeObject::StringBuilder(b) => {
            r = dispatch_string_builder(b, method, args, printed);
        },
        NativeObject::DateFormatter(_) => {
            chained = true;
        },
        _ => {},
    }
    let ghost changed = target.view();
    let _placeholder = heap.swap_object(at, target);
    proof {
        assert(heap.view() =~= before.update(obj as int, changed));
        if chained || r is None {
            assert(before.update(obj as int, before[obj as int]) =~= before);
        }
    }
    if chained {
        return dispatch_date_formatter(heap, method, args);
    }
    r
}

/// `get` semantics for the shims: key lookup in a map, membership in a set, position in a list.
/// `None` for what is not such a shim.
pub open spec fn native_get(n: Native, key: Val) -> Option<Val> {
    match n {
        Native::HashTable(entries) => Some(or_nil(entry_value(entries, key))),
        Native::HashItems(items) => Some(
            if item_position(items, key) is Some {
                key
            } else {
                Val::Nil
            },
        ),
        Native::ArrayList(items) => Some(
            if key is Long && 0 <= key->Long_0 < items.len() {
                items[key->Long_0 as int]
            } else {
                Val::Nil
            },
        ),
        _ => None,
    }
}

/// `get` on a shim.
pub fn native_coll_get(v: &Value, key: &Value, heap: &Heap) -> (r: Option<Value>)
    ensures
        optional(r) == (match referred(v.view(), heap.view()) {
            Some(n) => native_get(n, key.view()),
            None => None,
        }),
{
    match referred_object(v, heap) {
        Some(NativeObject::HashTable(m)) => Some(copy_or_nil(table_get(&m.inner, key))),
        Some(NativeObject::HashItems(s)) => if items_contain(&s.items, key) {
            Some(value_copy(key))
        } else {
            Some(Value::Nil)
        },
        Some(NativeObject::ArrayList(l)) => {
            match key {
                Value::Long(i) => {
                    if *i >= 0 && (*i as u64) < l.items.len() as u64 {
                        return Some(value_copy(&l.items[*i as usize]));
                    }
                },
                _ => {},
            }
            Some(Value::Nil)
        },
        _ => None,
    }
}

// ---------------------------------------------------------------------------
// Constructors
// ---------------------------------------------------------------------------

/// A fresh object was put on the heap, and its handle returned.
pub open spec fn created(
    before: Seq<Native>,
    after: Seq<Native>,
    r: ValueResult<Value>,
    object: Native,
) -> bool {
    after == before.push(object) && outcome(r) == Ok::<Val, Failure>(
        Val::NativeObject(before.len() as u64),
    )
}

/// `(HashMap.)`: sizing arguments are accepted and ignored.
pub fn builtin_hashmap_new(heap: &mut Heap, _args: &[Value]) -> (r: ValueResult<Value>)
    requires
        old(heap).view().len() <= u64::MAX,
    ensures
        created(old(heap).view(), final(heap).view(), r, Native::HashTable(Seq::empty())),
{
    let inner = table_new();
    assert(table_entries(inner) =~= Seq::empty());
    Ok(heap.add_object(NativeObject::HashTable(JavaHashMap { inner })))
}

/// `(.iterator coll)`: a snapshot of the collection. Maps iterate as `[key value]` entries.
pub fn iterator_of(heap: &mut Heap, target: &Value) -> (r: ValueResult<Value>)
    requires
        old(heap).view().len() <= u64::MAX,
    ensures
        match seq_items(target.view(), old(heap).view()) {
            Some(items) => created(
                old(heap).view(),
                final(heap).view(),
                r,
                Native::Iterator(items),
            ),
            None => final(heap).view() == old(heap).view() && outcome(r) == Err::<Val, Failure>(
                not_a_seq(target.view()),
            ),
        },
{
    match value_to_seq(target, heap) {
        Ok(items) => Ok(heap.add_object(NativeObject::Iterator(JavaIterator { items }))),
        Err(e) => Err(e),
    }
}

/// An argument that gives no elements: none, nil, or an integer capacity hint.
pub open spec fn no_elements(args: Seq<Val>) -> bool {
    args.len() == 0 || args[0] is Nil || args[0] is Long
}

fn element_args(args: &[Value], heap: &Heap) -> (r: ValueResult<Vec<Value>>)
    ensures
        match r {
            Ok(items) => if no_elements(vals(args@)) {
                items@.len() == 0
            } else {
                seq_items(vals(args@)[0], heap.view()) == Some(vals(items@))
            },
            Err(e) => !no_elements(vals(args@)) && seq_items(vals(args@)[0], heap.view()) is None
                && e.view() == not_a_seq(vals(args@)[0]),
        },
{
    if args.len() == 0 {
        return Ok(Vec::new());
    }
    assert(vals(args@)[0] == args@[0].view());
    match &args[0] {
        Value::Nil => Ok(Vec::new()),
        Value::Long(_) => Ok(Vec::new()),
        other => value_to_seq(other, heap),
    }
}

/// `(ArrayList.)`: an integer argument is a capacity hint, ignored; a collection argument copies
/// its elements.
pub fn builtin_array_list_new(heap: &mut Heap, args: &[Value]) -> (r: ValueResult<Value>)
    requires
        old(heap).view().len() <= u64::MAX,
    ensures
        if no_elements(vals(args@)) {
            created(old(heap).view(), final(heap).view(), r, Native::ArrayList(Seq::empty()))
        } else {
            match seq_items(vals(args@)[0], old(heap).view()) {
                Some(items) => created(
                    old(heap).view(),
                    final(heap).view(),
                    r,
                    Native::ArrayList(items),
                ),
                None => final(heap).view() == old(heap).view() && outcome(r) == Err::<Val, Failure>(
                    not_a_seq(vals(args@)[0]),
                ),
            }
        },
{
    match element_args(args, heap) {
        Ok(items) => {
            proof {
                if items@.len() == 0 {
                    assert(vals(items@) =~= Seq::empty());
                }
            }
            Ok(heap.add_object(NativeObject::ArrayList(JavaArrayList { items })))
        },
        Err(e) => Err(e),
    }
}

/// `(HashSet.)`: an integer argument is a capacity hint, ignored; a collection argument copies its
/// elements.
pub fn builtin_hash_set_new(heap: &mut Heap, args: &[Value]) -> (r: ValueResult<Value>)
    requires
        old(heap).view().len() <= u64::MAX,
    ensures
        if no_elements(vals(args@)) {
            created(old(heap).view(), final(heap).view(), r, Native::HashItems(Seq::empty()))
        } else {
            match seq_items(vals(args@)[0], old(heap).view()) {
                Some(items) => created(
                    old(heap).view(),
                    final(heap).view(),
                    r,
                    Native::HashItems(with_items(Seq::empty(), items)),
                ),
                None => final(heap).view() == old(heap).view() && outcome(r) == Err::<Val, Failure>(
                    not_a_seq(vals(args@)[0]),
                ),
            }
        },
{
    match element_args(args, heap) {
        Ok(values) => {
            let mut items = items_new();
            assert(table_items(items) =~= Seq::empty());
            let _changed = items_add_all(&mut items, &values);
            proof {
                if values@.len() == 0 {
                    assert(vals(values@) =~= Seq::empty());
                }
            }
            Ok(heap.add_object(NativeObject::HashItems(JavaHashSet { items })))
        },
        Err(e) => Err(e),
    }
}

pub fn builtin_completable_future_new(heap: &mut Heap, _args: &[Value]) -> (r: ValueResult<Value>)
    requires
        old(heap).view().len() <= u64::MAX,
    ensures
        created(old(heap).view(), final(heap).view(), r, Native::CompletableFuture(None)),
{
    Ok(heap.add_object(NativeObject::CompletableFuture(JavaCompletableFuture { slot: None })))
}

/// `(Object.)`: a fresh object equal only to itself.
pub fn builtin_object_new(heap: &mut Heap, _args: &[Value]) -> (r: ValueResult<Value>)
    requires
        old(heap).view().len() <= u64::MAX,
    ensures
        created(old(heap).view(), final(heap).view(), r, Native::Object),
{
    Ok(heap.add_object(NativeObject::Object(JavaObject)))
}

pub fn builtin_array_deque_new(heap: &mut Heap, _args: &[Value]) -> (r: ValueResult<Value>)
    requires
        old(heap).view().len() <= u64::MAX,
    ensures
        created(old(heap).view(), final(heap).view(), r, Native::ArrayDeque(Seq::empty())),
{
    let items: Vec<Value> = Vec::new();
    assert(vals(items@) =~= Seq::empty());
    Ok(heap.add_object(NativeObject::ArrayDeque(JavaArrayDeque { items })))
}

pub fn builtin_date_formatter_new(heap: &mut Heap, _args: &[Value]) -> (r: ValueResult<Value>)
    requires
        old(heap).view().len() <= u64::MAX,
    ensures
        created(old(heap).view(), final(heap).view(), r, Native::DateFormatter),
{
    Ok(heap.add_object(NativeObject::DateFormatter(JavaDateFormatter)))
}

/// `(StringBuilder. init?)`: a string argument is the initial text, anything else is ignored.
pub fn builtin_string_builder_new(heap: &mut Heap, args: &[Value]) -> (r: ValueResult<Value>)
    requires
        old(heap).view().len() <= u64::MAX,
    ensures
        created(
            old(heap).view(),
            final(heap).view(),
            r,
            Native::StringBuilder(
                if args@.len() > 0 && vals(args@)[0] is Str {
                    vals(args@)[0]->Str_0
                } else {
                    Seq::empty()
                },
            ),
        ),
{
    let mut buf = String::new();
    assert(buf@ =~= Seq::empty());
    if args.len() > 0 {
        assert(vals(args@)[0] == args@[0].view());
        match &args[0] {
            Value::Str(s) => {
                buf = s.clone();
            },
            _ => {},
        }
    }
    Ok(heap.add_object(NativeObject::StringBuilder(JavaStringBuilder { buf })))
}

/// `(Instant/ofEpochMilli ms)`: the instant.
pub fn builtin_instant_of_epoch_milli(args: &[Value]) -> (r: ValueResult<Value>)
    requires
        args@.len() > 0,
    ensures
        outcome(r) == match vals(args@)[0] {
            Val::Long(ms) => Ok::<Val, Failure>(Val::Instant(ms)),
            other => Err(
                Failure::Other("Instant/ofEpochMilli expects an integer, got "@ + kind_of(other)),
            ),
        },
{
    assert(vals(args@)[0] == args@[0].view());
    match &args[0] {
        Value::Long(ms) => Ok(Value::Instant(*ms)),
        other => {
            let mut m = text_copy("Instant/ofEpochMilli expects an integer, got ");
            push_text(&mut m, other.kind());
            Err(ValueError::Other(m))
        },
    }
}

/// `(MapEntry. k v)`: a `[key value]` vector.
pub fn builtin_map_entry_new(args: &[Value]) -> (r: ValueResult<Value>)
    requires
        args@.len() >= 2,
    ensures
        outcome(r) == Ok::<Val, Failure>(entry_vector((vals(args@)[0], vals(args@)[1]))),
{
    Ok(entry_value_vector(&args[0], &args[1]))
}

} // verus!
