//! Values that cross an isolate boundary: they are copied as a whole, and a value that holds
//! isolate-local state cannot cross.

use vstd::prelude::*;
use crate::text::{push_text, text_copy};
use crate::value::{kind_of, lemma_views, pair_vals, vals, Val};
use crate::value::{value_copy, Value};

verus! {

/// The first isolate-local value within a value: a host object or a host resource.
pub open spec fn local_in(v: Val) -> Option<Val>
    decreases v,
{
    match v {
        Val::NativeObject(_) => Some(v),
        Val::Resource(_) => Some(v),
        Val::List(x) => local_among(x),
        Val::Vector(x) => local_among(x),
        Val::ObjectArray(x) => local_among(x),
        Val::HashSet(x) => local_among(x),
        Val::HashMap(x) => local_in_entries(x),
        _ => None,
    }
}

/// The first isolate-local value within some values.
pub open spec fn local_among(x: Seq<Val>) -> Option<Val>
    decreases x,
{
    if x.len() == 0 {
        None
    } else {
        match local_among(x.drop_last()) {
            Some(l) => Some(l),
            None => local_in(x.last()),
        }
    }
}

/// The first isolate-local value within some entries, the key before the value.
pub open spec fn local_in_entries(x: Seq<(Val, Val)>) -> Option<Val>
    decreases x,
{
    if x.len() == 0 {
        None
    } else {
        match local_in_entries(x.drop_last()) {
            Some(l) => Some(l),
            None => match local_in(x.last().0) {
                Some(l) => Some(l),
                None => local_in(x.last().1),
            },
        }
    }
}

proof fn lemma_first_local(x: Seq<Val>, k: int)
    requires
        0 <= k <= x.len(),
        local_among(x.take(k)) is Some,
    ensures
        local_among(x) == local_among(x.take(k)),
    decreases x.len(),
{
    if k == x.len() {
        assert(x.take(k) =~= x);
    } else {
        assert(x.drop_last().take(k) =~= x.take(k));
        lemma_first_local(x.drop_last(), k);
    }
}

proof fn lemma_first_local_entry(x: Seq<(Val, Val)>, k: int)
    requires
        0 <= k <= x.len(),
        local_in_entries(x.take(k)) is Some,
    ensures
        local_in_entries(x) == local_in_entries(x.take(k)),
    decreases x.len(),
{
    if k == x.len() {
        assert(x.take(k) =~= x);
    } else {
        assert(x.drop_last().take(k) =~= x.take(k));
        lemma_first_local_entry(x.drop_last(), k);
    }
}

/// The view of a value that was found.
pub open spec fn found(v: Option<&Value>) -> Option<Val> {
    match v {
        Some(v) => Some(v.view()),
        None => None,
    }
}

fn find_local<'a>(v: &'a Value) -> (r: Option<&'a Value>)
    ensures
        found(r) == local_in(v.view()),
    decreases v, 0nat,
{
    proof {
        lemma_views(*v);
    }
    match v {
        Value::NativeObject(_) => Some(v),
        Value::Resource(_) => Some(v),
        Value::List(x) => find_among(x),
        Value::Vector(x) => find_among(x),
        Value::ObjectArray(x) => find_among(x),
        Value::HashSet(x) => find_among(x),
        Value::HashMap(x) => find_in_entries(x),
        _ => None,
    }
}

fn find_among<'a>(x: &'a Vec<Value>) -> (r: Option<&'a Value>)
    ensures
        found(r) == local_among(vals(x@)),
    decreases x, 1nat,
{
    let ghost all = vals(x@);
    assert(all.take(0) =~= Seq::empty());
    for i in 0..x.len()
        invariant
            all == vals(x@),
            local_among(all.take(i as int)) is None,
    {
        proof {
            assert(decreases_to!(x => x@));
            assert(decreases_to!(x@ => x@[i as int]));
            assert(all.take(i + 1).drop_last() =~= all.take(i as int));
            assert(all.take(i + 1).last() == x@[i as int].view());
        }
        let l = find_local(&x[i]);
        if l.is_some() {
            proof {
                lemma_first_local(all, i + 1);
            }
            return l;
        }
    }
    assert(all.take(all.len() as int) =~= all);
    None
}

fn find_in_entries<'a>(x: &'a Vec<(Value, Value)>) -> (r: Option<&'a Value>)
    ensures
        found(r) == local_in_entries(pair_vals(x@)),
    decreases x, 1nat,
{
    let ghost all = pair_vals(x@);
    assert(all.take(0) =~= Seq::empty());
    for i in 0..x.len()
        invariant
            all == pair_vals(x@),
            local_in_entries(all.take(i as int)) is None,
    {
        proof {
            assert(decreases_to!(x => x@));
            assert(decreases_to!(x@ => x@[i as int]));
            assert(decreases_to!(x@[i as int] => x@[i as int].0));
            assert(decreases_to!(x@[i as int] => x@[i as int].1));
            assert(all.take(i + 1).drop_last() =~= all.take(i as int));
            assert(all.take(i + 1).last() == (x@[i as int].0.view(), x@[i as int].1.view()));
        }
        let l = find_local(&x[i].0);
        if l.is_some() {
            proof {
                lemma_first_local_entry(all, i + 1);
            }
            return l;
        }
        let l = find_local(&x[i].1);
        if l.is_some() {
            proof {
                lemma_first_local_entry(all, i + 1);
            }
            return l;
        }
    }
    assert(all.take(all.len() as int) =~= all);
    None
}

/// A value on its way across the boundary: it holds no isolate-local state.
#[derive(Debug)]
pub struct SerializedValue {
    value: Value,
}

impl SerializedValue {
    #[verifier::type_invariant]
    spec fn crosses(self) -> bool {
        local_in(self.value.view()) is None
    }

    /// What the value holds.
    pub closed spec fn view(&self) -> Val {
        self.value.view()
    }
}

/// Why a value cannot cross.
#[derive(Debug)]
pub struct CloneError {
    /// The type of the isolate-local value.
    pub kind: String,
}

impl CloneError {
    /// The error in words.
    pub fn message(&self) -> (r: String)
        ensures
            r@ == "is or holds a "@ + self.kind@,
    {
        let mut m = text_copy("is or holds a ");
        push_text(&mut m, self.kind.as_str());
        m
    }
}

/// Copy a value for the way across the boundary.
pub fn serialize(v: &Value) -> (r: Result<SerializedValue, CloneError>)
    ensures
        match local_in(v.view()) {
            None => r is Ok && r->Ok_0.view() == v.view(),
            Some(l) => r is Err && r->Err_0.kind@ == kind_of(l),
        },
{
    match find_local(v) {
        Some(l) => Err(CloneError { kind: text_copy(l.kind()) }),
        None => Ok(SerializedValue { value: value_copy(v) }),
    }
}

/// The value that came across the boundary.
pub fn deserialize(s: SerializedValue) -> (r: Value)
    ensures
        r.view() == s.view(),
        local_in(r.view()) is None,
{
    proof {
        use_type_invariant(&s);
    }
    s.value
}

} // verus!
