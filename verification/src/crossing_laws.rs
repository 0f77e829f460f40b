//! Laws of what may cross from one isolate to another.

use vstd::prelude::*;
use crate::crossing::{local_among, local_in, local_in_entries};
use crate::isolate::{call_asked, replied, size_of_pool, with_pool, worker_at, CallPhase, Worker};
use crate::value::Val;

verus! {

/// A value is held back where it is a host object or resource, or holds one anywhere.
pub open spec fn held_back(v: Val) -> bool {
    local_in(v) is Some
}

proof fn lemma_among(x: Seq<Val>)
    ensures
        local_among(x) is Some <==> exists|i: int| 0 <= i < x.len() && held_back(#[trigger] x[i]),
    decreases x.len(),
{
    if x.len() > 0 {
        let rest = x.drop_last();
        lemma_among(rest);
        if exists|i: int| 0 <= i < x.len() && held_back(#[trigger] x[i]) {
            let i = choose|i: int| 0 <= i < x.len() && held_back(#[trigger] x[i]);
            if i < rest.len() {
                assert(held_back(rest[i]));
            }
        }
        if local_among(rest) is Some {
            let i = choose|i: int| 0 <= i < rest.len() && held_back(#[trigger] rest[i]);
            assert(held_back(x[i]));
        } else if local_in(x.last()) is Some {
            assert(held_back(x[x.len() - 1]));
        }
    }
}

proof fn lemma_entries_among(x: Seq<(Val, Val)>)
    ensures
        local_in_entries(x) is Some <==> exists|i: int|
            0 <= i < x.len() && (held_back((#[trigger] x[i]).0) || held_back(x[i].1)),
    decreases x.len(),
{
    if x.len() > 0 {
        let rest = x.drop_last();
        lemma_entries_among(rest);
        if exists|i: int|
            0 <= i < x.len() && (held_back((#[trigger] x[i]).0) || held_back(x[i].1)) {
            let i = choose|i: int|
                0 <= i < x.len() && (held_back((#[trigger] x[i]).0) || held_back(x[i].1));
            if i < rest.len() {
                assert(rest[i] == x[i]);
            }
        }
        if local_in_entries(rest) is Some {
            let i = choose|i: int|
                0 <= i < rest.len() && (held_back((#[trigger] rest[i]).0) || held_back(rest[i].1));
            assert(rest[i] == x[i]);
        } else if local_in_entries(x) is Some {
            assert(held_back(x[x.len() - 1].0) || held_back(x[x.len() - 1].1));
        }
    }
}

/// Host objects and resources are held back, and so is every collection that holds one, in a key or
/// in a value; every other value crosses.
pub proof fn law_what_crosses(
    v: Val,
    x: Seq<Val>,
    e: Seq<(Val, Val)>,
    h: u64,
)
    ensures
        held_back(Val::NativeObject(h)),
        held_back(Val::Resource(h)),
        held_back(Val::List(x)) <==> exists|i: int| 0 <= i < x.len() && held_back(#[trigger] x[i]),
        held_back(Val::Vector(x)) <==> exists|i: int|
            0 <= i < x.len() && held_back(#[trigger] x[i]),
        held_back(Val::ObjectArray(x)) <==> exists|i: int|
            0 <= i < x.len() && held_back(#[trigger] x[i]),
        held_back(Val::HashSet(x)) <==> exists|i: int|
            0 <= i < x.len() && held_back(#[trigger] x[i]),
        held_back(Val::HashMap(e)) <==> exists|i: int|
            0 <= i < e.len() && (held_back((#[trigger] e[i]).0) || held_back(e[i].1)),
        !(v is NativeObject || v is Resource || v is List || v is Vector || v is ObjectArray
            || v is HashSet || v is HashMap) ==> !held_back(v),
{
    lemma_among(x);
    lemma_entries_among(e);
    assert(local_in(Val::List(x)) == local_among(x));
    assert(local_in(Val::Vector(x)) == local_among(x));
    assert(local_in(Val::ObjectArray(x)) == local_among(x));
    assert(local_in(Val::HashSet(x)) == local_among(x));
    assert(local_in(Val::HashMap(e)) == local_in_entries(e));
}

/// A call goes to the isolate that its first argument refers to, for the function that its second
/// names in full, with the arguments behind these two; it needs an open isolate.
pub proof fn law_isolate_calls(args: Seq<Val>, handles: Seq<Worker>)
    ensures
        call_asked(args, handles) matches Ok(c) ==> {
            &&& args.len() >= 2
            &&& args[0] == Val::Resource(c.resource)
            &&& args[1] matches Val::Symbol(s) && s.namespace == Some(c.ns) && s.name == c.name
            &&& c.args == args.skip(2)
            &&& worker_at(handles, c.resource) matches Some(i) && !handles[i].closed
        },
{
    if call_asked(args, handles) is Ok {
        crate::isolate::law_sent_arguments_are_copies(args, handles);
        lemma_resource(handles, args[0]->Resource_0);
    }
}

proof fn lemma_resource(handles: Seq<Worker>, resource: u64)
    ensures
        worker_at(handles, resource) matches Some(i) ==> 0 <= i < handles.len()
            && handles[i].resource == resource,
    decreases handles.len(),
{
    if handles.len() > 0 && handles.last().resource != resource {
        lemma_resource(handles.drop_last(), resource);
    }
}

/// A reply is the result of the function where it may cross; each failure is told with the name of
/// the function.
pub proof fn law_replies(ns: Seq<char>, name: Seq<char>, phase: CallPhase)
    ensures
        replied(ns, name, phase) is Ok <==> (phase matches CallPhase::Applied(v) && !held_back(
            v.view(),
        )),
        phase matches CallPhase::Applied(v) ==> (replied(ns, name, phase) matches Ok(r) ==> r
            == v.view()),
        phase matches CallPhase::Failed(e) ==> replied(ns, name, phase) == Err::<Val, Seq<char>>(
            ns + "/"@ + name + ": "@ + e@,
        ),
{
}

/// The pool has as many isolates as the setting says, where it says a positive number; else as the
/// machine has processors, else one.
pub proof fn law_pool_sizes(n: nat, p: Option<usize>)
    requires
        n <= usize::MAX,
    ensures
        n > 0 ==> size_of_pool(Some(crate::decimal::digits(n)), p) == n,
        n == 0 ==> size_of_pool(Some(crate::decimal::digits(n)), p) == size_of_pool(None, p),
        p matches Some(k) ==> size_of_pool(None, p) == k,
        p is None ==> size_of_pool(None, p) == 1,
{
    crate::parse::law_unsigned_reads_back(n, usize::MAX as nat);
}

/// A pool adds one open isolate for each that was started, in order and named by its number; the
/// isolates before it stay.
pub proof fn law_pools(handles: Seq<Worker>, started: Seq<u64>, i: int)
    requires
        0 <= i < started.len(),
    ensures
        ({
            let after = with_pool(handles, started);
            &&& after.len() == handles.len() + started.len()
            &&& after.take(handles.len() as int) == handles
            &&& after[handles.len() + i].resource == started[i]
            &&& after[handles.len() + i].name == "pool-"@ + crate::decimal::digits(i as nat)
            &&& !after[handles.len() + i].closed
        }),
{
    assert(with_pool(handles, started).take(handles.len() as int) =~= handles);
}

} // verus!
