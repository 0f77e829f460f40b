//! The dynamic variable binding stack.
//!
//! A `binding` form pushes a frame for the duration of its body; its [`BindingGuard`] pops it.
//! A lookup takes the innermost frame that binds the variable, and the root value without one.

use vstd::prelude::*;
use crate::io_target::{popped, Target};
use crate::io_target::{pop_stream, push_stream, Targets};
use crate::text::same_text;
use crate::value::{NameView, Val};
use crate::value::{value_copy, Value};

verus! {

/// Opaque key of a variable in the binding stack: its identity.
pub type VarKey = usize;

/// A variable: its identity, and its root value once it has one.
#[derive(Debug)]
pub struct Var {
    pub key: VarKey,
    pub root: Option<Value>,
}

/// The view of an optional value.
pub open spec fn maybe(v: Option<Value>) -> Option<Val> {
    match v {
        Some(v) => Some(v.view()),
        None => None,
    }
}

impl Var {
    /// Set the root value.
    pub fn bind(&mut self, value: Value)
        ensures
            final(self).key == old(self).key,
            maybe(final(self).root) == Some(value.view()),
    {
        self.root = Some(value);
    }
}

/// The key of a variable.
pub fn var_key_of(var: &Var) -> (r: VarKey)
    ensures
        r == var.key,
{
    var.key
}

/// What a frame binds.
pub open spec fn frame_vals(frame: Seq<(VarKey, Value)>) -> Seq<(VarKey, Val)> {
    Seq::new(frame.len(), |i: int| (frame[i].0, frame[i].1.view()))
}

/// What some frames bind.
pub open spec fn frames_vals(frames: Seq<Vec<(VarKey, Value)>>) -> Seq<Seq<(VarKey, Val)>> {
    Seq::new(frames.len(), |i: int| frame_vals(frames[i]@))
}

/// The position of a variable in a frame.
pub open spec fn bound_at(frame: Seq<(VarKey, Val)>, key: VarKey) -> Option<int>
    decreases frame.len(),
{
    if frame.len() == 0 {
        None
    } else if frame.last().0 == key {
        Some(frame.len() - 1)
    } else {
        bound_at(frame.drop_last(), key)
    }
}

/// The value of a variable in a frame.
pub open spec fn bound_in(frame: Seq<(VarKey, Val)>, key: VarKey) -> Option<Val> {
    match bound_at(frame, key) {
        Some(i) => Some(frame[i].1),
        None => None,
    }
}

/// The position of the innermost frame that binds a variable.
pub open spec fn innermost(frames: Seq<Seq<(VarKey, Val)>>, key: VarKey) -> Option<int>
    decreases frames.len(),
{
    if frames.len() == 0 {
        None
    } else if bound_at(frames.last(), key) is Some {
        Some(frames.len() - 1)
    } else {
        innermost(frames.drop_last(), key)
    }
}

/// The value of a variable in the innermost frame that binds it.
pub open spec fn bound(frames: Seq<Seq<(VarKey, Val)>>, key: VarKey) -> Option<Val> {
    match innermost(frames, key) {
        Some(i) => bound_in(frames[i], key),
        None => None,
    }
}

/// The frame with a variable that it binds set.
pub open spec fn frame_with(frame: Seq<(VarKey, Val)>, key: VarKey, v: Val) -> Seq<(VarKey, Val)> {
    match bound_at(frame, key) {
        Some(i) => frame.update(i, (key, v)),
        None => frame,
    }
}

/// The frames with the innermost binding of a variable set.
pub open spec fn frames_with(frames: Seq<Seq<(VarKey, Val)>>, key: VarKey, v: Val) -> Seq<
    Seq<(VarKey, Val)>,
> {
    match innermost(frames, key) {
        Some(i) => frames.update(i, frame_with(frames[i], key, v)),
        None => frames,
    }
}

/// The binding stack of a thread, and the key of `*out*` once it is known (0 before).
#[derive(Debug)]
pub struct Bindings {
    pub stack: Vec<Vec<(VarKey, Value)>>,
    pub out_var: VarKey,
}

impl Bindings {
    /// The frames, the innermost last.
    pub open spec fn frames(&self) -> Seq<Seq<(VarKey, Val)>> {
        frames_vals(self.stack@)
    }

    pub fn new() -> (r: Bindings)
        ensures
            r.frames() == Seq::<Seq<(VarKey, Val)>>::empty(),
            r.out_var == 0,
    {
        let r = Bindings { stack: Vec::new(), out_var: 0 };
        assert(r.frames() =~= Seq::<Seq<(VarKey, Val)>>::empty());
        r
    }
}

/// Stands for a pushed frame until it is released, and for the stream marker that the frame
/// pushed, when it rebound `*out*` to an output sentinel.
#[derive(Debug)]
pub struct BindingGuard {
    pub pushed_stream: bool,
}

/// Tell the stack the key of `*out*`.
pub fn register_out_var(bindings: &mut Bindings, key: VarKey)
    ensures
        final(bindings).out_var == key,
        final(bindings).frames() == old(bindings).frames(),
{
    bindings.out_var = key;
}

/// The stream that an output sentinel stands for: `:cljrs.io/stderr` is true,
/// `:cljrs.io/stdout` false.
pub open spec fn sentinel(v: Val) -> Option<bool> {
    if v == Val::Keyword(NameView { namespace: Some("cljrs.io"@), name: "stderr"@ }) {
        Some(true)
    } else if v == Val::Keyword(NameView { namespace: Some("cljrs.io"@), name: "stdout"@ }) {
        Some(false)
    } else {
        None
    }
}

/// The stream that an output sentinel stands for.
pub fn sentinel_stream(v: &Value) -> (r: Option<bool>)
    ensures
        r == sentinel(v.view()),
{
    proof {
        reveal_strlit("stderr");
        reveal_strlit("stdout");
        assert("stderr"@[3] == 'e' && "stdout"@[3] == 'o');
    }
    if let Value::Keyword(k) = v {
        if let Some(ns) = &k.namespace {
            if same_text(ns.as_str(), "cljrs.io") {
                if same_text(k.name.as_str(), "stderr") {
                    return Some(true);
                }
                if same_text(k.name.as_str(), "stdout") {
                    return Some(false);
                }
            }
        }
    }
    None
}

fn position(frame: &Vec<(VarKey, Value)>, key: VarKey) -> (r: Option<usize>)
    ensures
        match r {
            Some(i) => bound_at(frame_vals(frame@), key) == Some(i as int) && i < frame@.len()
                && frame@[i as int].0 == key,
            None => bound_at(frame_vals(frame@), key) is None,
        },
{
    let ghost all = frame_vals(frame@);
    let mut i: usize = frame.len();
    assert(all.take(i as int) =~= all);
    while i > 0
        invariant
            i <= frame@.len(),
            all == frame_vals(frame@),
            bound_at(all, key) == bound_at(all.take(i as int), key),
        decreases i,
    {
        assert(all.take(i as int).drop_last() =~= all.take(i - 1));
        assert(all.take(i as int).last() == all[i - 1]);
        if frame[i - 1].0 == key {
            return Some(i - 1);
        }
        i = i - 1;
    }
    None
}

/// The stream that a frame selects: it rebinds `*out*` to an output sentinel.
pub open spec fn selected(frame: Seq<(VarKey, Val)>, out_var: VarKey) -> Option<bool> {
    if out_var == 0 {
        None
    } else {
        match bound_in(frame, out_var) {
            Some(v) => sentinel(v),
            None => None,
        }
    }
}

/// Push a frame. A frame that rebinds `*out*` to an output sentinel also pushes the stream
/// marker.
pub fn push_frame(bindings: &mut Bindings, targets: &mut Targets, frame: Vec<(VarKey, Value)>) -> (r:
    BindingGuard)
    ensures
        final(bindings).frames() == old(bindings).frames().push(frame_vals(frame@)),
        final(bindings).out_var == old(bindings).out_var,
        r.pushed_stream == (selected(frame_vals(frame@), old(bindings).out_var) is Some),
        final(targets).view() == (match selected(frame_vals(frame@), old(bindings).out_var) {
            Some(stderr) => old(targets).view().push(
                if stderr {
                    Target::Stderr
                } else {
                    Target::Stdout
                },
            ),
            None => old(targets).view(),
        }),
{
    let stream = if bindings.out_var == 0 {
        None
    } else {
        match position(&frame, bindings.out_var) {
            Some(i) => sentinel_stream(&frame[i].1),
            None => None,
        }
    };
    let ghost before = bindings.frames();
    let ghost added = frame_vals(frame@);
    bindings.stack.push(frame);
    assert(bindings.frames() =~= before.push(added));
    match stream {
        Some(stderr) => {
            push_stream(targets, stderr);
            BindingGuard { pushed_stream: true }
        },
        None => BindingGuard { pushed_stream: false },
    }
}

impl BindingGuard {
    /// Pop the frame, and the stream marker that it pushed.
    pub fn release(self, bindings: &mut Bindings, targets: &mut Targets)
        ensures
            final(bindings).frames() == (if old(bindings).frames().len() == 0 {
                old(bindings).frames()
            } else {
                old(bindings).frames().drop_last()
            }),
            final(bindings).out_var == old(bindings).out_var,
            final(targets).view() == (if self.pushed_stream {
                popped(old(targets).view())
            } else {
                old(targets).view()
            }),
    {
        if self.pushed_stream {
            pop_stream(targets);
        }
        let ghost before = bindings.frames();
        let _frame = bindings.stack.pop();
        assert(before.len() > 0 ==> bindings.frames() =~= before.drop_last());
        assert(before.len() == 0 ==> bindings.frames() =~= before);
    }
}

fn innermost_frame(bindings: &Bindings, key: VarKey) -> (r: Option<(usize, usize)>)
    ensures
        match r {
            Some((i, k)) => innermost(bindings.frames(), key) == Some(i as int) && i
                < bindings.stack@.len() && k < bindings.stack@[i as int]@.len() && bound_at(
                bindings.frames()[i as int],
                key,
            ) == Some(k as int) && bindings.stack@[i as int]@[k as int].0 == key,
            None => innermost(bindings.frames(), key) is None,
        },
{
    let ghost all = bindings.frames();
    let mut i: usize = bindings.stack.len();
    assert(all.take(i as int) =~= all);
    while i > 0
        invariant
            i <= bindings.stack@.len(),
            all == bindings.frames(),
            innermost(all, key) == innermost(all.take(i as int), key),
        decreases i,
    {
        assert(all.take(i as int).drop_last() =~= all.take(i - 1));
        assert(all.take(i as int).last() == frame_vals(bindings.stack@[i - 1]@));
        if let Some(k) = position(&bindings.stack[i - 1], key) {
            return Some((i - 1, k));
        }
        i = i - 1;
    }
    None
}

/// The value of a variable: of the innermost frame that binds it, else its root value.
pub fn deref_var(bindings: &Bindings, var: &Var) -> (r: Option<Value>)
    ensures
        maybe(r) == (match bound(bindings.frames(), var.key) {
            Some(v) => Some(v),
            None => maybe(var.root),
        }),
{
    match innermost_frame(bindings, var.key) {
        Some((i, k)) => Some(value_copy(&bindings.stack[i][k].1)),
        None => match &var.root {
            Some(v) => Some(value_copy(v)),
            None => None,
        },
    }
}

/// Whether a frame binds the variable.
pub fn is_thread_bound(bindings: &Bindings, var: &Var) -> (r: bool)
    ensures
        r == (innermost(bindings.frames(), var.key) is Some),
{
    innermost_frame(bindings, var.key).is_some()
}

/// Set the innermost binding of a variable; gives false, and changes nothing, if no frame binds
/// it.
pub fn set_thread_local(bindings: &mut Bindings, var: &Var, v: Value) -> (r: bool)
    ensures
        r == (innermost(old(bindings).frames(), var.key) is Some),
        final(bindings).frames() == frames_with(old(bindings).frames(), var.key, v.view()),
        final(bindings).out_var == old(bindings).out_var,
{
    let ghost before = bindings.frames();
    match innermost_frame(bindings, var.key) {
        Some((i, k)) => {
            let ghost seen = v.view();
            let mut frame: Vec<(VarKey, Value)> = Vec::new();
            std::mem::swap(&mut bindings.stack[i], &mut frame);
            let ghost was = frame_vals(frame@);
            frame.set(k, (var.key, v));
            assert(frame_vals(frame@) =~= was.update(k as int, (var.key, seen)));
            bindings.stack.set(i, frame);
            assert(bindings.frames() =~= frames_with(before, var.key, seen));
            true
        },
        None => false,
    }
}

fn frame_copy(frame: &Vec<(VarKey, Value)>) -> (r: Vec<(VarKey, Value)>)
    ensures
        frame_vals(r@) == frame_vals(frame@),
{
    let mut out: Vec<(VarKey, Value)> = Vec::new();
    for i in 0..frame.len()
        invariant
            out@.len() == i,
            forall|j: int|
                0 <= j < i ==> (#[trigger] out@[j]).0 == frame@[j].0 && out@[j].1.view()
                    == frame@[j].1.view(),
    {
        out.push((frame[i].0, value_copy(&frame[i].1)));
    }
    assert(frame_vals(out@) =~= frame_vals(frame@));
    out
}

/// A snapshot of the whole stack, for conveyance into another thread.
pub fn capture_current(bindings: &Bindings) -> (r: Vec<Vec<(VarKey, Value)>>)
    ensures
        frames_vals(r@) == bindings.frames(),
{
    let mut out: Vec<Vec<(VarKey, Value)>> = Vec::new();
    for i in 0..bindings.stack.len()
        invariant
            out@.len() == i,
            forall|j: int|
                0 <= j < i ==> frame_vals((#[trigger] out@[j])@) == frame_vals(
                    bindings.stack@[j]@,
                ),
    {
        out.push(frame_copy(&bindings.stack[i]));
    }
    assert(frames_vals(out@) =~= bindings.frames());
    out
}

/// Install a captured snapshot as the stack of the current thread.
pub fn install_frames(bindings: &mut Bindings, frames: Vec<Vec<(VarKey, Value)>>)
    ensures
        final(bindings).frames() == frames_vals(frames@),
        final(bindings).out_var == old(bindings).out_var,
{
    bindings.stack = frames;
}

/// The values that a frame binds.
pub open spec fn frame_roots(frame: Seq<(VarKey, Val)>) -> Seq<Val> {
    Seq::new(frame.len(), |i: int| frame[i].1)
}

/// The values that frames bind.
pub open spec fn binding_roots(frames: Seq<Seq<(VarKey, Val)>>) -> Seq<Val>
    decreases frames.len(),
{
    if frames.len() == 0 {
        Seq::empty()
    } else {
        binding_roots(frames.drop_last()) + frame_roots(frames.last())
    }
}

/// Every value in the binding stack, as a root for the collector.
pub fn trace_current(bindings: &Bindings) -> (r: Vec<&Value>)
    ensures
        Seq::new(r@.len(), |i: int| r@[i].view()) == binding_roots(bindings.frames()),
{
    let ghost all = bindings.frames();
    let mut out: Vec<&Value> = Vec::new();
    assert(all.take(0) =~= Seq::empty());
    assert(Seq::new(out@.len(), |i: int| out@[i].view()) =~= Seq::<Val>::empty());
    for i in 0..bindings.stack.len()
        invariant
            all == bindings.frames(),
            Seq::new(out@.len(), |j: int| out@[j].view()) == binding_roots(all.take(i as int)),
    {
        let frame = &bindings.stack[i];
        let ghost base = Seq::new(out@.len(), |j: int| out@[j].view());
        let ghost roots = frame_roots(frame_vals(frame@));
        assert(all.take(i + 1).drop_last() =~= all.take(i as int));
        assert(all.take(i + 1).last() == frame_vals(frame@));
        assert(base + roots.take(0) =~= base);
        for k in 0..frame.len()
            invariant
                roots == frame_roots(frame_vals(frame@)),
                Seq::new(out@.len(), |j: int| out@[j].view()) == base + roots.take(k as int),
        {
            let ghost step = Seq::new(out@.len(), |j: int| out@[j].view());
            out.push(&frame[k].1);
            assert(Seq::new(out@.len(), |j: int| out@[j].view()) =~= step.push(roots[k as int]));
            assert(roots.take(k + 1) =~= roots.take(k as int).push(roots[k as int]));
            assert(step.push(roots[k as int]) =~= base + roots.take(k + 1));
        }
        assert(roots.take(roots.len() as int) =~= roots);
    }
    assert(all.take(all.len() as int) =~= all);
    out
}

// ---------------------------------------------------------------------------
// Laws
// ---------------------------------------------------------------------------

/// Inside a `binding` form a variable has the value that the form gave it; a variable that the
/// form does not name keeps the value it had.
pub proof fn law_innermost_binding_wins(
    frames: Seq<Seq<(VarKey, Val)>>,
    frame: Seq<(VarKey, Val)>,
    key: VarKey,
)
    ensures
        bound(frames.push(frame), key) == (match bound_in(frame, key) {
            Some(v) => Some(v),
            None => bound(frames, key),
        }),
{
    assert(frames.push(frame).drop_last() =~= frames);
    assert(frames.push(frame).last() == frame);
    if bound_at(frame, key) is None {
        lemma_innermost_in_range(frames, key);
    }
}

proof fn lemma_innermost_in_range(frames: Seq<Seq<(VarKey, Val)>>, key: VarKey)
    ensures
        innermost(frames, key) matches Some(i) ==> 0 <= i < frames.len() && bound_at(
            frames[i],
            key,
        ) is Some,
    decreases frames.len(),
{
    if frames.len() > 0 && bound_at(frames.last(), key) is None {
        lemma_innermost_in_range(frames.drop_last(), key);
    }
}

proof fn lemma_bound_in_range(frame: Seq<(VarKey, Val)>, key: VarKey)
    ensures
        bound_at(frame, key) matches Some(i) ==> 0 <= i < frame.len() && frame[i].0 == key,
    decreases frame.len(),
{
    if frame.len() > 0 && frame.last().0 != key {
        lemma_bound_in_range(frame.drop_last(), key);
    }
}

/// Replacing a value under the same key moves no binding of the frame.
proof fn lemma_positions_stay(frame: Seq<(VarKey, Val)>, i: int, v: Val, key: VarKey)
    requires
        0 <= i < frame.len(),
    ensures
        bound_at(frame.update(i, (frame[i].0, v)), key) == bound_at(frame, key),
    decreases frame.len(),
{
    let after = frame.update(i, (frame[i].0, v));
    assert(after.last().0 == frame.last().0);
    if frame.last().0 != key {
        if i == frame.len() - 1 {
            assert(after.drop_last() =~= frame.drop_last());
        } else {
            assert(after.drop_last() =~= frame.drop_last().update(
                i,
                (frame.drop_last()[i].0, v),
            ));
            lemma_positions_stay(frame.drop_last(), i, v, key);
        }
    }
}

/// Replacing a frame by one that binds the same variables moves no innermost frame.
proof fn lemma_innermost_stays(
    frames: Seq<Seq<(VarKey, Val)>>,
    i: int,
    frame: Seq<(VarKey, Val)>,
    key: VarKey,
)
    requires
        0 <= i < frames.len(),
        bound_at(frame, key) == bound_at(frames[i], key),
    ensures
        innermost(frames.update(i, frame), key) == innermost(frames, key),
    decreases frames.len(),
{
    let after = frames.update(i, frame);
    if i == frames.len() - 1 {
        assert(after.drop_last() =~= frames.drop_last());
    } else {
        assert(after.drop_last() =~= frames.drop_last().update(i, frame));
        if bound_at(frames.last(), key) is None {
            lemma_innermost_stays(frames.drop_last(), i, frame, key);
        }
    }
}

/// After a bound variable is set it has the new value, and every other variable the value it had.
pub proof fn law_set_then_deref(
    frames: Seq<Seq<(VarKey, Val)>>,
    key: VarKey,
    v: Val,
    other: VarKey,
)
    requires
        innermost(frames, key) is Some,
    ensures
        bound(frames_with(frames, key, v), key) == Some(v),
        other != key ==> bound(frames_with(frames, key, v), other) == bound(frames, other),
{
    lemma_innermost_in_range(frames, key);
    let i = innermost(frames, key)->Some_0;
    lemma_bound_in_range(frames[i], key);
    let k = bound_at(frames[i], key)->Some_0;
    lemma_positions_stay(frames[i], k, v, key);
    lemma_positions_stay(frames[i], k, v, other);
    let frame = frame_with(frames[i], key, v);
    assert(frame == frames[i].update(k, (frames[i][k].0, v)));
    lemma_innermost_stays(frames, i, frame, key);
    lemma_innermost_stays(frames, i, frame, other);
    lemma_innermost_in_range(frames, other);
    if other != key {
        if let Some(j) = innermost(frames, other) {
            lemma_bound_in_range(frames[j], other);
        }
    }
}

} // verus!
