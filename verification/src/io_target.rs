//! The output-target stack.
//!
//! Captures and stream redirection share one stack, so their dynamic extents compose. A print
//! goes to the topmost capture buffer, even below a stream marker. With no capture active, the
//! topmost stream marker picks standard output or standard error; without one it is standard
//! output.

use vstd::prelude::*;
use crate::text::push_text;

verus! {

/// Where output goes.
#[derive(Debug)]
pub enum OutputTarget {
    Capture(String),
    Stdout,
    Stderr,
}

/// What an [`OutputTarget`] holds.
pub enum Target {
    Capture(Seq<char>),
    Stdout,
    Stderr,
}

impl OutputTarget {
    pub open spec fn view(&self) -> Target {
        match self {
            OutputTarget::Capture(buf) => Target::Capture(buf@),
            OutputTarget::Stdout => Target::Stdout,
            OutputTarget::Stderr => Target::Stderr,
        }
    }
}

/// The stack of output targets of a thread.
#[derive(Debug)]
pub struct Targets {
    pub stack: Vec<OutputTarget>,
}

/// Where a print goes.
#[derive(Clone, Copy, Debug, PartialEq, Eq, Structural)]
pub enum Destination {
    /// Into the capture buffer.
    Captured,
    Stdout,
    Stderr,
}

/// The position of the topmost capture buffer.
pub open spec fn top_capture(stack: Seq<Target>) -> Option<int>
    decreases stack.len(),
{
    if stack.len() == 0 {
        None
    } else if stack.last() is Capture {
        Some(stack.len() - 1)
    } else {
        top_capture(stack.drop_last())
    }
}

/// Where a print goes.
pub open spec fn destination(stack: Seq<Target>) -> Destination {
    if top_capture(stack) is Some {
        Destination::Captured
    } else if stack.len() > 0 && stack.last() is Stderr {
        Destination::Stderr
    } else {
        Destination::Stdout
    }
}

/// The stack after text was written.
pub open spec fn written(stack: Seq<Target>, s: Seq<char>) -> Seq<Target> {
    match top_capture(stack) {
        Some(i) => stack.update(i, Target::Capture(stack[i]->Capture_0 + s)),
        None => stack,
    }
}

impl Targets {
    pub open spec fn view(&self) -> Seq<Target> {
        Seq::new(self.stack@.len(), |i: int| self.stack@[i].view())
    }

    pub fn new() -> (r: Targets)
        ensures
            r.view() == Seq::<Target>::empty(),
    {
        let r = Targets { stack: Vec::new() };
        assert(r.view() =~= Seq::<Target>::empty());
        r
    }
}

fn push_target(targets: &mut Targets, target: OutputTarget)
    ensures
        final(targets).view() == old(targets).view().push(target.view()),
{
    let ghost before = targets.view();
    let ghost added = target.view();
    targets.stack.push(target);
    assert(targets.view() =~= before.push(added));
}

/// Push a capture buffer.
pub fn push_capture(targets: &mut Targets)
    ensures
        final(targets).view() == old(targets).view().push(Target::Capture(Seq::empty())),
{
    let buf = String::new();
    assert(buf@ =~= Seq::empty());
    push_target(targets, OutputTarget::Capture(buf));
}

/// The stack without its top entry.
pub open spec fn popped(stack: Seq<Target>) -> Seq<Target> {
    if stack.len() == 0 {
        stack
    } else {
        stack.drop_last()
    }
}

/// Pop the top entry; gives its contents when it is a capture buffer.
pub fn pop_capture(targets: &mut Targets) -> (r: Option<String>)
    ensures
        final(targets).view() == popped(old(targets).view()),
        (match r {
            Some(s) => Some(s@),
            None => None,
        }) == (if old(targets).view().len() > 0 && old(targets).view().last() is Capture {
            Some(old(targets).view().last()->Capture_0)
        } else {
            None
        }),
{
    let ghost before = targets.view();
    let top = targets.stack.pop();
    assert(targets.view() =~= popped(before));
    match top {
        Some(OutputTarget::Capture(buf)) => Some(buf),
        _ => None,
    }
}

/// Push a stream marker.
pub fn push_stream(targets: &mut Targets, stderr: bool)
    ensures
        final(targets).view() == old(targets).view().push(
            if stderr {
                Target::Stderr
            } else {
                Target::Stdout
            },
        ),
{
    if stderr {
        push_target(targets, OutputTarget::Stderr);
    } else {
        push_target(targets, OutputTarget::Stdout);
    }
}

/// Pop a stream marker.
pub fn pop_stream(targets: &mut Targets)
    ensures
        final(targets).view() == popped(old(targets).view()),
{
    let ghost before = targets.view();
    let _top = targets.stack.pop();
    assert(targets.view() =~= popped(before));
}

/// The position of the topmost capture buffer, or the stream that is written to.
fn resolve(targets: &Targets) -> (r: Result<usize, bool>)
    ensures
        match r {
            Ok(i) => top_capture(targets.view()) == Some(i as int) && i < targets.view().len()
                && targets.view()[i as int] is Capture,
            Err(stderr) => top_capture(targets.view()) is None && destination(targets.view()) == (
            if stderr {
                Destination::Stderr
            } else {
                Destination::Stdout
            }),
        },
{
    let ghost all = targets.view();
    let mut stderr: Option<bool> = None;
    let mut i: usize = targets.stack.len();
    assert(all.take(i as int) =~= all);
    while i > 0
        invariant
            i <= targets.stack@.len(),
            all == targets.view(),
            top_capture(all) == top_capture(all.take(i as int)),
            i == all.len() <==> stderr is None,
            stderr matches Some(b) ==> (b <==> all.last() is Stderr),
        decreases i,
    {
        assert(all.take(i as int).drop_last() =~= all.take(i - 1));
        assert(all.take(i as int).last() == targets.stack@[i - 1].view());
        match &targets.stack[i - 1] {
            OutputTarget::Capture(_) => {
                return Ok(i - 1);
            },
            OutputTarget::Stderr => {
                if stderr.is_none() {
                    stderr = Some(true);
                }
            },
            OutputTarget::Stdout => {
                if stderr.is_none() {
                    stderr = Some(false);
                }
            },
        }
        i = i - 1;
    }
    match stderr {
        Some(b) => Err(b),
        None => Err(false),
    }
}

fn append(targets: &mut Targets, at: usize, s: &str)
    requires
        at < old(targets).view().len(),
        old(targets).view()[at as int] is Capture,
    ensures
        final(targets).view() == old(targets).view().update(
            at as int,
            Target::Capture(old(targets).view()[at as int]->Capture_0 + s@),
        ),
{
    let ghost before = targets.view();
    let mut target = OutputTarget::Stdout;
    std::mem::swap(&mut targets.stack[at], &mut target);
    match target {
        OutputTarget::Capture(buf) => {
            let mut buf = buf;
            push_text(&mut buf, s);
            targets.stack.set(at, OutputTarget::Capture(buf));
        },
        _ => {},
    }
    assert(targets.view() =~= before.update(
        at as int,
        Target::Capture(before[at as int]->Capture_0 + s@),
    ));
}

/// Write text to the current target; gives the stream that the caller writes it to when it is not
/// captured.
pub fn emit(targets: &mut Targets, s: &str) -> (r: Destination)
    ensures
        r == destination(old(targets).view()),
        final(targets).view() == written(old(targets).view(), s@),
{
    match resolve(targets) {
        Ok(i) => {
            append(targets, i, s);
            Destination::Captured
        },
        Err(true) => Destination::Stderr,
        Err(false) => Destination::Stdout,
    }
}

/// Write text and a newline to the current target.
pub fn emit_ln(targets: &mut Targets, s: &str) -> (r: Destination)
    ensures
        r == destination(old(targets).view()),
        final(targets).view() == written(old(targets).view(), s@ + "\n"@),
{
    let mut line = crate::text::text_copy(s);
    push_text(&mut line, "\n");
    emit(targets, line.as_str())
}

/// The stream that a flush goes to; nothing for a capture.
pub fn flush_current(targets: &Targets) -> (r: Option<Destination>)
    ensures
        r == (if destination(targets.view()) is Captured {
            None
        } else {
            Some(destination(targets.view()))
        }),
{
    match resolve(targets) {
        Ok(_) => None,
        Err(true) => Some(Destination::Stderr),
        Err(false) => Some(Destination::Stdout),
    }
}

/// What is printed inside a capture, whatever streams are selected meanwhile, is what the capture
/// gives back, and the stack below is left as it was.
pub proof fn law_capture_gets_what_is_printed(
    below: Seq<Target>,
    held: Seq<char>,
    markers: Seq<Target>,
    s: Seq<char>,
)
    requires
        forall|i: int| 0 <= i < markers.len() ==> !(#[trigger] markers[i] is Capture),
    ensures
        written(below.push(Target::Capture(held)) + markers, s) == below.push(
            Target::Capture(held + s),
        ) + markers,
        destination(below.push(Target::Capture(held)) + markers) is Captured,
{
    let stack = below.push(Target::Capture(held)) + markers;
    lemma_markers_are_skipped(below.push(Target::Capture(held)), markers);
    assert(top_capture(stack) == Some(below.len() as int));
    assert(written(stack, s) =~= below.push(Target::Capture(held + s)) + markers);
}

proof fn lemma_markers_are_skipped(stack: Seq<Target>, markers: Seq<Target>)
    requires
        forall|i: int| 0 <= i < markers.len() ==> !(#[trigger] markers[i] is Capture),
    ensures
        top_capture(stack + markers) == top_capture(stack),
    decreases markers.len(),
{
    if markers.len() == 0 {
        assert(stack + markers =~= stack);
    } else {
        assert((stack + markers).drop_last() =~= stack + markers.drop_last());
        assert((stack + markers).last() == markers.last());
        lemma_markers_are_skipped(stack, markers.drop_last());
    }
}

/// Without a capture, the innermost stream marker decides where a print goes.
pub proof fn law_innermost_stream_decides(below: Seq<Target>, stderr: bool)
    requires
        top_capture(below) is None,
    ensures
        destination(
            below.push(
                if stderr {
                    Target::Stderr
                } else {
                    Target::Stdout
                },
            ),
        ) == (if stderr {
            Destination::Stderr
        } else {
            Destination::Stdout
        }),
{
    let marker = if stderr {
        Target::Stderr
    } else {
        Target::Stdout
    };
    assert(below.push(marker).drop_last() =~= below);
    assert(below.push(marker).last() == marker);
}

} // verus!
