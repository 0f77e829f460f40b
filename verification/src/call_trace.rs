//! Call-stack tracking for error reports.
//!
//! Each interpreted call pushes one [`Frame`]. When a call returns an error and no snapshot exists
//! yet, the live stack is kept as the error trace. A handler that catches the condition clears
//! it, so the trace always describes the error that finally escaped.

use vstd::prelude::*;
use crate::form::Span;
use crate::form::Place;
use crate::text::text_copy;

verus! {

/// One interpreted call: the callee as written, the namespace evaluating it, and the call site.
#[derive(Debug)]
pub struct Frame {
    pub name: String,
    pub ns: String,
    pub span: Span,
}

/// What a [`Frame`] holds.
pub struct Call {
    pub name: Seq<char>,
    pub ns: Seq<char>,
    pub span: Place,
}

impl Frame {
    pub open spec fn view(&self) -> Call {
        Call { name: self.name@, ns: self.ns@, span: self.span.view() }
    }
}

/// The views of frames.
pub open spec fn calls(frames: Seq<Frame>) -> Seq<Call> {
    Seq::new(frames.len(), |i: int| frames[i].view())
}

/// The live call stack of a thread, and the trace of the error that escapes.
#[derive(Debug)]
pub struct CallStack {
    pub frames: Vec<Frame>,
    pub error_trace: Option<Vec<Frame>>,
}

impl CallStack {
    /// The live calls, the innermost last.
    pub open spec fn live(&self) -> Seq<Call> {
        calls(self.frames@)
    }

    /// The trace kept for an error.
    pub open spec fn trace(&self) -> Option<Seq<Call>> {
        match self.error_trace {
            Some(t) => Some(calls(t@)),
            None => None,
        }
    }

    pub fn new() -> (r: CallStack)
        ensures
            r.live() == Seq::<Call>::empty(),
            r.trace() is None,
    {
        let r = CallStack { frames: Vec::new(), error_trace: None };
        assert(r.live() =~= Seq::<Call>::empty());
        r
    }
}

/// Stands for a pushed frame until it is released.
#[derive(Debug)]
pub struct FrameGuard;

impl FrameGuard {
    /// Enter a call.
    pub fn push(stack: &mut CallStack, name: String, ns: String, span: Span) -> (r: FrameGuard)
        ensures
            final(stack).live() == old(stack).live().push(
                Call { name: name@, ns: ns@, span: span.view() },
            ),
            final(stack).trace() == old(stack).trace(),
    {
        let ghost before = stack.live();
        let ghost added = Call { name: name@, ns: ns@, span: span.view() };
        stack.frames.push(Frame { name, ns, span });
        assert(stack.live() =~= before.push(added));
        FrameGuard
    }

    /// Leave the call.
    pub fn release(self, stack: &mut CallStack)
        ensures
            final(stack).live() == (if old(stack).live().len() == 0 {
                old(stack).live()
            } else {
                old(stack).live().drop_last()
            }),
            final(stack).trace() == old(stack).trace(),
    {
        let ghost before = stack.live();
        let _frame = stack.frames.pop();
        assert(before.len() > 0 ==> stack.live() =~= before.drop_last());
        assert(before.len() == 0 ==> stack.live() =~= before);
    }
}

fn frames_copy(frames: &Vec<Frame>) -> (r: Vec<Frame>)
    ensures
        calls(r@) == calls(frames@),
{
    let mut out: Vec<Frame> = Vec::new();
    for i in 0..frames.len()
        invariant
            out@.len() == i,
            forall|j: int| 0 <= j < i ==> #[trigger] out@[j].view() == frames@[j].view(),
    {
        let f = &frames[i];
        out.push(
            Frame {
                name: text_copy(f.name.as_str()),
                ns: text_copy(f.ns.as_str()),
                span: f.span.copy(),
            },
        );
    }
    assert(calls(out@) =~= calls(frames@));
    out
}

/// Keep the live stack as the error trace, unless one is kept already: the deepest failing call
/// wins as the error propagates outward.
pub fn record_error_trace(stack: &mut CallStack)
    ensures
        final(stack).live() == old(stack).live(),
        final(stack).trace() == (match old(stack).trace() {
            Some(t) => Some(t),
            None => Some(old(stack).live()),
        }),
{
    if stack.error_trace.is_none() {
        let snapshot = frames_copy(&stack.frames);
        stack.error_trace = Some(snapshot);
    }
}

/// The condition was handled: the trace no longer describes an escaping error.
pub fn clear_error_trace(stack: &mut CallStack)
    ensures
        final(stack).live() == old(stack).live(),
        final(stack).trace() is None,
{
    stack.error_trace = None;
}

/// Take the trace of the error that escaped, the innermost frame last.
pub fn take_error_trace(stack: &mut CallStack) -> (r: Option<Vec<Frame>>)
    ensures
        (match r {
            Some(t) => Some(calls(t@)),
            None => None,
        }) == old(stack).trace(),
        final(stack).live() == old(stack).live(),
        final(stack).trace() is None,
{
    let mut t: Option<Vec<Frame>> = None;
    std::mem::swap(&mut t, &mut stack.error_trace);
    t
}

/// The trace after an error passed out through some live stacks, the innermost first.
pub open spec fn trace_after(kept: Option<Seq<Call>>, passed: Seq<Seq<Call>>) -> Option<Seq<Call>>
    decreases passed.len(),
{
    if passed.len() == 0 {
        kept
    } else {
        match trace_after(kept, passed.drop_last()) {
            Some(t) => Some(t),
            None => Some(passed.last()),
        }
    }
}

/// However far an error propagates, its trace is the stack of the deepest failing call.
pub proof fn law_deepest_call_wins(passed: Seq<Seq<Call>>)
    requires
        passed.len() > 0,
    ensures
        trace_after(None, passed) == Some(passed[0]),
    decreases passed.len(),
{
    if passed.len() == 1 {
        assert(passed.drop_last() =~= Seq::empty());
    } else {
        law_deepest_call_wins(passed.drop_last());
    }
}

} // verus!
