//! Isolates: workers that calls are shipped to by name, and what becomes of a call.
//!
//! A call ships as a fully qualified symbol and copied arguments, never as a closure. A closed
//! isolate drains the calls it has and takes no new ones.

use vstd::prelude::*;
use crate::crossing::local_in;
use crate::crossing::{deserialize, serialize};
use crate::decimal::digits;
use crate::decimal::{law_digits_round_trip, push_digits};
use crate::eval_error::EvalError;
use crate::javamap::outcome;
use crate::parse::unsigned_number;
use crate::parse::parse_usize;
use crate::text::{chars_of, push_text, text_copy};
use crate::value::{kind_of, vals, Failure, Val};
use crate::value::{Value, ValueError, ValueResult};

verus! {

/// The handle of an isolate, which programs hold as a resource.
#[derive(Debug)]
pub struct IsolateHandle {
    pub resource: u64,
    pub name: String,
    pub closed: bool,
}

/// What an [`IsolateHandle`] holds.
pub struct Worker {
    pub resource: u64,
    pub name: Seq<char>,
    pub closed: bool,
}

impl IsolateHandle {
    pub open spec fn view(&self) -> Worker {
        Worker { resource: self.resource, name: self.name@, closed: self.closed }
    }
}

/// The isolates of a thread, and its default pool.
#[derive(Debug)]
pub struct Isolates {
    pub handles: Vec<IsolateHandle>,
    /// The resources of the default pool; empty until it is first used.
    pub pool: Vec<u64>,
    pub pool_next: usize,
}

/// The position of the isolate behind a resource.
pub open spec fn worker_at(handles: Seq<Worker>, resource: u64) -> Option<int>
    decreases handles.len(),
{
    if handles.len() == 0 {
        None
    } else if handles.last().resource == resource {
        Some(handles.len() - 1)
    } else {
        worker_at(handles.drop_last(), resource)
    }
}

impl Isolates {
    /// The isolates, in the order of their creation.
    pub open spec fn workers(&self) -> Seq<Worker> {
        Seq::new(self.handles@.len(), |i: int| self.handles@[i].view())
    }

    pub fn new() -> (r: Isolates)
        ensures
            r.workers() == Seq::<Worker>::empty(),
            r.pool@ == Seq::<u64>::empty(),
            r.pool_next == 0,
    {
        let r = Isolates { handles: Vec::new(), pool: Vec::new(), pool_next: 0 };
        assert(r.workers() =~= Seq::<Worker>::empty());
        r
    }

    fn position(&self, resource: u64) -> (r: Option<usize>)
        ensures
            match r {
                Some(i) => worker_at(self.workers(), resource) == Some(i as int) && i
                    < self.handles@.len(),
                None => worker_at(self.workers(), resource) is None,
            },
    {
        let ghost all = self.workers();
        let mut i: usize = self.handles.len();
        assert(all.take(i as int) =~= all);
        while i > 0
            invariant
                i <= self.handles@.len(),
                all == self.workers(),
                worker_at(all, resource) == worker_at(all.take(i as int), resource),
            decreases i,
        {
            assert(all.take(i as int).drop_last() =~= all.take(i - 1));
            assert(all.take(i as int).last() == all[i - 1]);
            if self.handles[i - 1].resource == resource {
                return Some(i - 1);
            }
            i = i - 1;
        }
        None
    }

    fn add(&mut self, resource: u64, name: String)
        ensures
            final(self).workers() == old(self).workers().push(
                Worker { resource, name: name@, closed: false },
            ),
            final(self).pool@ == old(self).pool@,
            final(self).pool_next == old(self).pool_next,
    {
        let ghost before = self.workers();
        let ghost added = Worker { resource, name: name@, closed: false };
        self.handles.push(IsolateHandle { resource, name, closed: false });
        assert(self.workers() =~= before.push(added));
    }
}

/// The type of the first argument, without text where there is none.
pub open spec fn got_kind(v: Option<Val>) -> Seq<char> {
    match v {
        Some(v) => kind_of(v),
        None => Seq::empty(),
    }
}

/// The argument at a position.
pub open spec fn arg_at(args: Seq<Val>, i: int) -> Option<Val> {
    if i < args.len() {
        Some(args[i])
    } else {
        None
    }
}

/// The isolate that the first argument refers to, or what is wrong with it.
pub open spec fn handle_of(args: Seq<Val>, handles: Seq<Worker>, who: Seq<char>) -> Result<
    int,
    Failure,
> {
    match arg_at(args, 0) {
        Some(Val::Resource(h)) => match worker_at(handles, h) {
            Some(i) => Ok(i),
            None => Err(Failure::Other(who + ": expected an isolate handle resource"@)),
        },
        other => Err(Failure::WrongType { expected: "isolate handle"@, got: got_kind(other) }),
    }
}

fn wrong_arg(expected: &str, args: &[Value], i: usize) -> (r: ValueError)
    ensures
        r.view() == (Failure::WrongType {
            expected: expected@,
            got: got_kind(arg_at(vals(args@), i as int)),
        }),
{
    if i < args.len() {
        assert(vals(args@)[i as int] == args@[i as int].view());
        ValueError::wrong_type(expected, &args[i])
    } else {
        let got = String::new();
        assert(got@ =~= Seq::empty());
        ValueError::WrongType { expected: text_copy(expected), got }
    }
}

/// The isolate that the first argument refers to.
pub fn handle_arg(isolates: &Isolates, args: &[Value], who: &str) -> (r: ValueResult<usize>)
    ensures
        (match r {
            Ok(i) => Ok::<int, Failure>(i as int),
            Err(e) => Err(e.view()),
        }) == handle_of(vals(args@), isolates.workers(), who@),
        r matches Ok(i) ==> i < isolates.handles@.len(),
{
    if args.len() > 0 {
        assert(vals(args@)[0] == args@[0].view());
        if let Value::Resource(h) = &args[0] {
            return match isolates.position(*h) {
                Some(i) => Ok(i),
                None => {
                    let mut m = text_copy(who);
                    push_text(&mut m, ": expected an isolate handle resource");
                    Err(ValueError::Other(m))
                },
            };
        }
    }
    Err(wrong_arg("isolate handle", args, 0))
}

/// How many isolates a process has numbered; its threads share it.
#[derive(Debug)]
pub struct IsolateCounter {
    pub next: u64,
}

impl IsolateCounter {
    /// The number of one more isolate.
    pub fn take(&mut self) -> (r: u64)
        ensures
            r == old(self).next,
            final(self).next == (if old(self).next == u64::MAX {
                0
            } else {
                old(self).next + 1
            }),
    {
        let n: u64 = self.next;
        self.next = if n == u64::MAX {
            0
        } else {
            n + 1
        };
        n
    }
}

/// The name of a numbered isolate.
pub open spec fn isolate_name(n: u64) -> Seq<char> {
    "isolate-"@ + digits(n as nat)
}

/// Isolates with different numbers have different names.
pub proof fn law_isolate_names_are_apart(n: u64, m: u64)
    requires
        n != m,
    ensures
        isolate_name(n) != isolate_name(m),
{
    law_digits_round_trip(n as nat);
    law_digits_round_trip(m as nat);
    let start = "isolate-"@;
    assert(isolate_name(n).skip(start.len() as int) =~= digits(n as nat));
    assert(isolate_name(m).skip(start.len() as int) =~= digits(m as nat));
}

/// `(isolate)`: note a fresh isolate, which the caller starts and knows by a resource. It is named
/// by the next number of the process.
pub fn builtin_isolate(
    isolates: &mut Isolates,
    counter: &mut IsolateCounter,
    resource: u64,
) -> (r: Value)
    ensures
        r.view() == Val::Resource(resource),
        final(isolates).workers() == old(isolates).workers().push(
            Worker { resource, name: isolate_name(old(counter).next), closed: false },
        ),
        final(counter).next == (if old(counter).next == u64::MAX {
            0
        } else {
            old(counter).next + 1
        }),
        final(isolates).pool@ == old(isolates).pool@,
        final(isolates).pool_next == old(isolates).pool_next,
{
    let mut name = text_copy("isolate-");
    push_digits(&mut name, counter.take());
    isolates.add(resource, name);
    Value::Resource(resource)
}

/// `(isolate? v)`: whether the value is the handle of an isolate, open or closed.
pub fn builtin_isolate_p(isolates: &Isolates, args: &[Value]) -> (r: Value)
    ensures
        r.view() == Val::Bool(
            arg_at(vals(args@), 0) matches Some(Val::Resource(h)) && worker_at(
                isolates.workers(),
                h,
            ) is Some,
        ),
{
    if args.len() > 0 {
        assert(vals(args@)[0] == args@[0].view());
        if let Value::Resource(h) = &args[0] {
            return Value::Bool(isolates.position(*h).is_some());
        }
    }
    Value::Bool(false)
}

/// One unit of work: a fully qualified symbol and copied arguments.
#[derive(Debug)]
pub struct IsolateCmd {
    /// The isolate that runs it.
    pub resource: u64,
    pub ns: String,
    pub name: String,
    pub args: Vec<Value>,
}

/// What an [`IsolateCmd`] holds.
pub struct Command {
    pub resource: u64,
    pub ns: Seq<char>,
    pub name: Seq<char>,
    pub args: Seq<Val>,
}

impl IsolateCmd {
    pub open spec fn view(&self) -> Command {
        Command {
            resource: self.resource,
            ns: self.ns@,
            name: self.name@,
            args: vals(self.args@),
        }
    }
}

/// Why a value that holds an isolate-local one cannot be copied.
pub open spec fn holds_local(l: Val) -> Seq<char> {
    "is or holds a "@ + kind_of(l)
}

/// An argument that cannot be copied.
pub open spec fn cannot_cross(i: nat, cause: Seq<char>) -> Failure {
    Failure::Other(
        "isolate-call: argument "@ + digits(i) + " "@ + cause
            + "; the value holds isolate-local state and cannot cross an isolate boundary"@,
    )
}

/// The copied arguments, or the failure of the first that cannot be copied.
pub open spec fn copied(args: Seq<Val>) -> Result<Seq<Val>, Failure>
    decreases args.len(),
{
    if args.len() == 0 {
        Ok(Seq::empty())
    } else {
        match copied(args.drop_last()) {
            Err(e) => Err(e),
            Ok(done) => match local_in(args.last()) {
                None => Ok(done.push(args.last())),
                Some(l) => Err(cannot_cross((args.len() - 1) as nat, holds_local(l))),
            },
        }
    }
}

/// The arguments of the function that a call names.
pub open spec fn function_args(args: Seq<Val>) -> Seq<Val> {
    if args.len() < 2 {
        Seq::empty()
    } else {
        args.skip(2)
    }
}

/// A symbol without a namespace.
pub open spec fn unqualified(name: Seq<char>) -> Failure {
    Failure::Other(
        "isolate-call: symbol "@ + name
            + " must be fully qualified (ns/fn) — work ships to an isolate by name, never by closure"@,
    )
}

/// What a call of `isolate-call` sends to an isolate, or why it is refused.
pub open spec fn call_asked(args: Seq<Val>, handles: Seq<Worker>) -> Result<Command, Failure> {
    match handle_of(args, handles, "isolate-call"@) {
        Err(e) => Err(e),
        Ok(i) => match arg_at(args, 1) {
            Some(Val::Symbol(sym)) => match sym.namespace {
                None => Err(unqualified(sym.name)),
                Some(ns) => match copied(function_args(args)) {
                    Err(e) => Err(e),
                    Ok(copies) => if handles[i].closed {
                        Err(
                            Failure::Other(
                                "isolate-call: isolate "@ + handles[i].name + " is closed"@,
                            ),
                        )
                    } else {
                        Ok(
                            Command {
                                resource: handles[i].resource,
                                ns,
                                name: sym.name,
                                args: copies,
                            },
                        )
                    },
                },
            },
            other => Err(
                Failure::WrongType { expected: "fully qualified symbol"@, got: got_kind(other) },
            ),
        },
    }
}

proof fn lemma_first_failure(args: Seq<Val>, k: int)
    requires
        0 <= k <= args.len(),
        copied(args.take(k)) is Err,
    ensures
        copied(args) == copied(args.take(k)),
    decreases args.len(),
{
    if k == args.len() {
        assert(args.take(k) =~= args);
    } else {
        assert(args.drop_last().take(k) =~= args.take(k));
        lemma_first_failure(args.drop_last(), k);
    }
}

fn copies_of(args: &[Value]) -> (r: ValueResult<Vec<Value>>)
    requires
        args@.len() >= 2,
    ensures
        (match r {
            Ok(v) => Ok::<Seq<Val>, Failure>(vals(v@)),
            Err(e) => Err(e.view()),
        }) == copied(function_args(vals(args@))),
{
    let ghost all = vals(args@).skip(2);
    let mut out: Vec<Value> = Vec::new();
    assert(all.take(0) =~= Seq::empty());
    assert(vals(out@) =~= Seq::empty());
    for k in 2..args.len()
        invariant
            args@.len() >= 2,
            all == vals(args@).skip(2),
            copied(all.take(k - 2)) == Ok::<Seq<Val>, Failure>(vals(out@)),
    {
        let ghost seen = all.take(k - 1);
        assert(seen.drop_last() =~= all.take(k - 2));
        assert(seen.last() == args@[k as int].view());
        match serialize(&args[k]) {
            Ok(copy) => {
                let v = deserialize(copy);
                let ghost before = vals(out@);
                let ghost added = v.view();
                out.push(v);
                assert(vals(out@) =~= before.push(added));
            },
            Err(e) => {
                let mut m = text_copy("isolate-call: argument ");
                push_digits(&mut m, (k - 2) as u64);
                push_text(&mut m, " ");
                push_text(&mut m, e.message().as_str());
                push_text(
                    &mut m,
                    "; the value holds isolate-local state and cannot cross an isolate boundary",
                );
                proof {
                    lemma_first_failure(all, k - 1);
                }
                return Err(ValueError::Other(m));
            },
        }
    }
    assert(all.take(all.len() as int) =~= all);
    Ok(out)
}

/// `(isolate-call iso 'ns/fn & args)`: what is sent to the isolate.
pub fn builtin_isolate_call(isolates: &Isolates, args: &[Value]) -> (r: ValueResult<IsolateCmd>)
    ensures
        (match r {
            Ok(c) => Ok::<Command, Failure>(c.view()),
            Err(e) => Err(e.view()),
        }) == call_asked(vals(args@), isolates.workers()),
{
    let i: usize = match handle_arg(isolates, args, "isolate-call") {
        Ok(i) => i,
        Err(e) => {
            return Err(e);
        },
    };
    if args.len() < 2 {
        return Err(wrong_arg("fully qualified symbol", args, 1));
    }
    assert(vals(args@)[1] == args@[1].view());
    let sym = match &args[1] {
        Value::Symbol(s) => s,
        _ => {
            return Err(wrong_arg("fully qualified symbol", args, 1));
        },
    };
    let ns = match &sym.namespace {
        Some(ns) => ns,
        None => {
            let mut m = text_copy("isolate-call: symbol ");
            push_text(&mut m, sym.name.as_str());
            push_text(
                &mut m,
                " must be fully qualified (ns/fn) — work ships to an isolate by name, never by closure",
            );
            return Err(ValueError::Other(m));
        },
    };
    let copies = match copies_of(args) {
        Ok(c) => c,
        Err(e) => {
            return Err(e);
        },
    };
    let handle = &isolates.handles[i];
    if handle.closed {
        let mut m = text_copy("isolate-call: isolate ");
        push_text(&mut m, handle.name.as_str());
        push_text(&mut m, " is closed");
        return Err(ValueError::Other(m));
    }
    Ok(
        IsolateCmd {
            resource: handle.resource,
            ns: ns.clone(),
            name: sym.name.clone(),
            args: copies,
        },
    )
}

/// `(isolate-close! iso)`: calls that are queued still run, new ones are refused.
pub fn builtin_isolate_close(isolates: &mut Isolates, args: &[Value]) -> (r: ValueResult<Value>)
    ensures
        match handle_of(vals(args@), old(isolates).workers(), "isolate-close!"@) {
            Ok(i) => outcome(r) == Ok::<Val, Failure>(Val::Nil) && final(isolates).workers()
                == closed_at(old(isolates).workers(), i),
            Err(e) => outcome(r) == Err::<Val, Failure>(e) && final(isolates).workers() == old(
                isolates,
            ).workers(),
        },
        final(isolates).pool@ == old(isolates).pool@,
        final(isolates).pool_next == old(isolates).pool_next,
{
    let i: usize = match handle_arg(isolates, args, "isolate-close!") {
        Ok(i) => i,
        Err(e) => {
            return Err(e);
        },
    };
    let ghost before = isolates.workers();
    let resource: u64 = isolates.handles[i].resource;
    let name = isolates.handles[i].name.clone();
    isolates.handles.set(i, IsolateHandle { resource, name, closed: true });
    assert(isolates.workers() =~= closed_at(before, i as int));
    Ok(Value::Nil)
}

/// The isolates with one closed.
pub open spec fn closed_at(handles: Seq<Worker>, i: int) -> Seq<Worker> {
    handles.update(i, Worker { closed: true, ..handles[i] })
}

// ---------------------------------------------------------------------------
// Running a call, and its reply
// ---------------------------------------------------------------------------

/// The source whose value is the function to call: its namespace is required first.
pub fn resolve_source(ns: &str, name: &str) -> (r: String)
    ensures
        r@ == "(do (require (quote "@ + ns@ + ")) "@ + ns@ + "/"@ + name@ + ")"@,
{
    let mut s = text_copy("(do (require (quote ");
    push_text(&mut s, ns);
    push_text(&mut s, ")) ");
    push_text(&mut s, ns);
    push_text(&mut s, "/");
    push_text(&mut s, name);
    push_text(&mut s, ")");
    s
}

/// How far a call got.
#[derive(Debug)]
pub enum CallPhase {
    /// The source of the symbol did not parse.
    Unparsed,
    /// The function could not be resolved.
    Unresolved(String),
    /// The function failed.
    Failed(String),
    /// The function gave a result.
    Applied(Value),
}

/// What is replied to a call: the result, copied, or an error that tells the phase it failed in.
pub open spec fn replied(ns: Seq<char>, name: Seq<char>, phase: CallPhase) -> Result<Val, Seq<char>> {
    let symbol = ns + "/"@ + name;
    match phase {
        CallPhase::Unparsed => Err("cannot parse symbol "@ + symbol),
        CallPhase::Unresolved(e) => Err("resolving "@ + symbol + ": "@ + e@),
        CallPhase::Failed(e) => Err(symbol + ": "@ + e@),
        CallPhase::Applied(v) => match local_in(v.view()) {
            None => Ok(v.view()),
            Some(l) => Err(
                "result of "@ + symbol + " cannot cross the isolate boundary: "@ + holds_local(l),
            ),
        },
    }
}

/// What is replied to a call that got this far.
pub fn run_cmd(ns: &str, name: &str, phase: CallPhase) -> (r: Result<Value, String>)
    ensures
        (match r {
            Ok(v) => Ok::<Val, Seq<char>>(v.view()),
            Err(e) => Err(e@),
        }) == replied(ns@, name@, phase),
{
    let mut symbol = text_copy(ns);
    push_text(&mut symbol, "/");
    push_text(&mut symbol, name);
    match phase {
        CallPhase::Unparsed => {
            let mut m = text_copy("cannot parse symbol ");
            push_text(&mut m, symbol.as_str());
            Err(m)
        },
        CallPhase::Unresolved(e) => {
            let mut m = text_copy("resolving ");
            push_text(&mut m, symbol.as_str());
            push_text(&mut m, ": ");
            push_text(&mut m, e.as_str());
            Err(m)
        },
        CallPhase::Failed(e) => {
            push_text(&mut symbol, ": ");
            push_text(&mut symbol, e.as_str());
            Err(symbol)
        },
        CallPhase::Applied(v) => match serialize(&v) {
            Ok(copy) => Ok(deserialize(copy)),
            Err(e) => {
                let mut m = text_copy("result of ");
                push_text(&mut m, symbol.as_str());
                push_text(&mut m, " cannot cross the isolate boundary: ");
                push_text(&mut m, e.message().as_str());
                Err(m)
            },
        },
    }
}

/// What the caller's future settles to: the result, the isolate's error, or the death of the
/// isolate when no reply came.
pub fn settle(isolate: &str, reply: Option<Result<Value, String>>) -> (r: Result<Value, EvalError>)
    ensures
        match (reply, r) {
            (Some(Ok(v)), Ok(w)) => w == v,
            (Some(Err(msg)), Err(EvalError::Runtime(m))) => m@ == "isolate "@ + isolate@ + ": "@
                + msg@,
            (None, Err(EvalError::Runtime(m))) => m@ == "isolate "@ + isolate@
                + " died before replying"@,
            _ => false,
        },
{
    match reply {
        Some(Ok(v)) => Ok(v),
        Some(Err(msg)) => {
            let mut m = text_copy("isolate ");
            push_text(&mut m, isolate);
            push_text(&mut m, ": ");
            push_text(&mut m, msg.as_str());
            Err(EvalError::Runtime(m))
        },
        None => {
            let mut m = text_copy("isolate ");
            push_text(&mut m, isolate);
            push_text(&mut m, " died before replying");
            Err(EvalError::Runtime(m))
        },
    }
}

// ---------------------------------------------------------------------------
// The default pool
// ---------------------------------------------------------------------------

/// The size of the default pool: a positive setting, else the parallelism of the machine, else
/// one.
pub open spec fn size_of_pool(setting: Option<Seq<char>>, parallelism: Option<usize>) -> nat {
    let set = match setting {
        Some(v) => unsigned_number(v, usize::MAX as nat),
        None => None,
    };
    match set {
        Some(n) => if n > 0 {
            n
        } else {
            machine_size(parallelism)
        },
        None => machine_size(parallelism),
    }
}

/// The parallelism of the machine, or one.
pub open spec fn machine_size(parallelism: Option<usize>) -> nat {
    match parallelism {
        Some(n) => n as nat,
        None => 1,
    }
}

/// The size of the default pool, by the value of `CLJRS_ISOLATE_POOL_SIZE` and the parallelism of
/// the machine.
pub fn pool_size(setting: Option<&str>, parallelism: Option<usize>) -> (r: usize)
    ensures
        r == size_of_pool(
            match setting {
                Some(v) => Some(v@),
                None => None,
            },
            parallelism,
        ),
{
    if let Some(v) = setting {
        let chars = chars_of(v);
        assert(chars@.skip(0) =~= chars@);
        if let Some(n) = parse_usize(&chars, 0) {
            if n > 0 {
                return n;
            }
        }
    }
    match parallelism {
        Some(n) => n,
        None => 1,
    }
}

/// The isolates after a pool was started.
pub open spec fn with_pool(handles: Seq<Worker>, started: Seq<u64>) -> Seq<Worker> {
    handles + Seq::new(
        started.len(),
        |i: int|
            Worker { resource: started[i], name: "pool-"@ + digits(i as nat), closed: false },
    )
}

/// Note the isolates of the default pool, which the caller has started.
pub fn start_pool(isolates: &mut Isolates, started: &Vec<u64>)
    requires
        old(isolates).pool@.len() == 0,
    ensures
        final(isolates).workers() == with_pool(old(isolates).workers(), started@),
        final(isolates).pool@ == started@,
        final(isolates).pool_next == old(isolates).pool_next,
{
    let ghost first = isolates.workers();
    assert(with_pool(first, started@.take(0)) =~= first);
    for i in 0..started.len()
        invariant
            isolates.workers() == with_pool(first, started@.take(i as int)),
            isolates.pool@ == started@.take(i as int),
            isolates.pool_next == old(isolates).pool_next,
    {
        let mut name = text_copy("pool-");
        push_digits(&mut name, i as u64);
        let ghost before = isolates.workers();
        let ghost added = Worker { resource: started@[i as int], name: name@, closed: false };
        isolates.add(started[i], name);
        isolates.pool.push(started[i]);
        assert(started@.take(i + 1) =~= started@.take(i as int).push(started@[i as int]));
        assert(before.push(added) =~= with_pool(first, started@.take(i + 1)));
    }
    assert(started@.take(started@.len() as int) =~= started@);
}

/// `(default-isolate)`: the next handle of the pool, in turn.
pub fn builtin_default_isolate(isolates: &mut Isolates) -> (r: Value)
    requires
        old(isolates).pool@.len() > 0,
    ensures
        r.view() == Val::Resource(
            old(isolates).pool@[old(isolates).pool_next as int % old(isolates).pool@.len() as int],
        ),
        final(isolates).pool_next == (if old(isolates).pool_next == usize::MAX {
            0
        } else {
            old(isolates).pool_next + 1
        }),
        final(isolates).workers() == old(isolates).workers(),
        final(isolates).pool@ == old(isolates).pool@,
{
    let i: usize = isolates.pool_next;
    isolates.pool_next = i.wrapping_add(1);
    let at: usize = i % isolates.pool.len();
    Value::Resource(isolates.pool[at])
}

// ---------------------------------------------------------------------------
// Laws
// ---------------------------------------------------------------------------

/// A closed isolate takes no call: whatever is asked of it is refused.
pub proof fn law_closed_isolate_refuses(
    args: Seq<Val>,
    handles: Seq<Worker>,
    closing: Seq<Val>,
)
    requires
        handle_of(closing, handles, "isolate-close!"@) is Ok,
        args.len() > 0,
        args[0] == closing[0],
    ensures
        call_asked(
            args,
            closed_at(handles, handle_of(closing, handles, "isolate-close!"@)->Ok_0),
        ) is Err,
{
    let i = handle_of(closing, handles, "isolate-close!"@)->Ok_0;
    let h = closing[0]->Resource_0;
    lemma_worker_in_range(handles, h);
    lemma_closing_keeps_positions(handles, i, h);
    let after = closed_at(handles, i);
    assert(worker_at(after, h) == Some(i));
    assert(after[i].closed);
}

/// Whatever is sent to an isolate holds no isolate-local state: what could not be copied was
/// refused.
pub proof fn law_sent_arguments_are_copies(args: Seq<Val>, handles: Seq<Worker>)
    requires
        call_asked(args, handles) is Ok,
    ensures
        call_asked(args, handles)->Ok_0.args == function_args(args),
        forall|i: int|
            0 <= i < function_args(args).len() ==> local_in(
                #[trigger] function_args(args)[i],
            ) is None,
{
    lemma_copied(function_args(args));
}

proof fn lemma_copied(args: Seq<Val>)
    requires
        copied(args) is Ok,
    ensures
        copied(args) == Ok::<Seq<Val>, Failure>(args),
        forall|i: int| 0 <= i < args.len() ==> local_in(#[trigger] args[i]) is None,
    decreases args.len(),
{
    if args.len() > 0 {
        let rest = args.drop_last();
        lemma_copied(rest);
        assert(rest.push(args.last()) =~= args);
        assert forall|i: int| 0 <= i < args.len() implies local_in(#[trigger] args[i]) is None by {
            if i < rest.len() {
                assert(rest[i] == args[i]);
            }
        }
    } else {
        assert(args =~= Seq::empty());
    }
}

/// Closing an isolate leaves every other isolate's answer as it was.
pub proof fn law_closing_spares_the_others(handles: Seq<Worker>, i: int, resource: u64)
    requires
        0 <= i < handles.len(),
        worker_at(handles, resource) != Some(i),
    ensures
        worker_at(closed_at(handles, i), resource) == worker_at(handles, resource),
        worker_at(handles, resource) matches Some(k) ==> closed_at(handles, i)[k] == handles[k],
{
    lemma_closing_keeps_positions(handles, i, resource);
    lemma_worker_in_range(handles, resource);
}

proof fn lemma_worker_in_range(handles: Seq<Worker>, resource: u64)
    ensures
        worker_at(handles, resource) matches Some(i) ==> 0 <= i < handles.len(),
    decreases handles.len(),
{
    if handles.len() > 0 && handles.last().resource != resource {
        lemma_worker_in_range(handles.drop_last(), resource);
    }
}

proof fn lemma_closing_keeps_positions(handles: Seq<Worker>, i: int, resource: u64)
    requires
        0 <= i < handles.len(),
    ensures
        worker_at(closed_at(handles, i), resource) == worker_at(handles, resource),
    decreases handles.len(),
{
    let after = closed_at(handles, i);
    assert(after.last().resource == handles.last().resource);
    if handles.last().resource != resource {
        if i == handles.len() - 1 {
            assert(after.drop_last() =~= handles.drop_last());
        } else {
            assert(after.drop_last() =~= closed_at(handles.drop_last(), i));
            lemma_closing_keeps_positions(handles.drop_last(), i, resource);
        }
    }
}

} // verus!
