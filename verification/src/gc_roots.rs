//! The root registry of a thread: what the collector must treat as live.
//!
//! Environments on the call stack are registered in a stack. Values are registered as slots, by
//! the address and the length of the slice that holds them. A slot is unregistered by identity,
//! not in stack order: guards stored in structs are released in arbitrary order relative to
//! scoped ones, and the order of the entries carries no meaning for tracing.

use vstd::prelude::*;
use crate::debug_modes::due;
use crate::debug_modes::{stress_due, DebugModes};
use crate::value::Value;

verus! {

/// A registered slice of values.
#[derive(Clone, Copy, Debug, PartialEq, Eq, Structural)]
pub struct Slot {
    pub address: usize,
    pub count: usize,
}

/// The roots of a thread, and the hooks that run at the end of every collection.
#[derive(Debug)]
pub struct Roots {
    /// The addresses of the active environments, the innermost last.
    pub envs: Vec<usize>,
    pub values: Vec<Slot>,
    pub option_values: Vec<Slot>,
    /// The reclaim hooks, in the order of their registration.
    pub hooks: Vec<u64>,
}

/// What a [`Roots`] holds.
pub struct RootSet {
    pub envs: Seq<usize>,
    pub values: Seq<Slot>,
    pub option_values: Seq<Slot>,
    pub hooks: Seq<u64>,
}

/// The last position of a slot.
pub open spec fn slot_position(slots: Seq<Slot>, slot: Slot) -> Option<int>
    decreases slots.len(),
{
    if slots.len() == 0 {
        None
    } else if slots.last() == slot {
        Some(slots.len() - 1)
    } else {
        slot_position(slots.drop_last(), slot)
    }
}

/// The slots without one: the last entry takes the place of the one that goes.
pub open spec fn without_slot(slots: Seq<Slot>, slot: Slot) -> Seq<Slot> {
    match slot_position(slots, slot) {
        Some(i) => slots.update(i, slots.last()).drop_last(),
        None => slots,
    }
}

/// The slot of a slice; an empty slice has none.
pub open spec fn slot_of(address: usize, count: nat) -> Option<Slot> {
    if count == 0 {
        None
    } else {
        Some(Slot { address, count: count as usize })
    }
}

/// The slots with one more.
pub open spec fn with_slot(slots: Seq<Slot>, slot: Option<Slot>) -> Seq<Slot> {
    match slot {
        Some(s) => slots.push(s),
        None => slots,
    }
}

/// The slots with one less.
pub open spec fn released(slots: Seq<Slot>, slot: Option<Slot>) -> Seq<Slot> {
    match slot {
        Some(s) => without_slot(slots, s),
        None => slots,
    }
}

impl Roots {
    pub open spec fn view(&self) -> RootSet {
        RootSet {
            envs: self.envs@,
            values: self.values@,
            option_values: self.option_values@,
            hooks: self.hooks@,
        }
    }

    pub fn new() -> (r: Roots)
        ensures
            r.view() == (RootSet {
                envs: Seq::empty(),
                values: Seq::empty(),
                option_values: Seq::empty(),
                hooks: Seq::empty(),
            }),
    {
        Roots {
            envs: Vec::new(),
            values: Vec::new(),
            option_values: Vec::new(),
            hooks: Vec::new(),
        }
    }
}

fn unregister(slots: &mut Vec<Slot>, slot: Slot)
    ensures
        final(slots)@ == without_slot(old(slots)@, slot),
{
    let ghost all = slots@;
    let mut i: usize = slots.len();
    assert(all.take(i as int) =~= all);
    while i > 0
        invariant
            i <= slots@.len(),
            slots@ == all,
            all == old(slots)@,
            slot_position(all, slot) == slot_position(all.take(i as int), slot),
        decreases i,
    {
        assert(all.take(i as int).drop_last() =~= all.take(i - 1));
        assert(all.take(i as int).last() == all[i - 1]);
        if slots[i - 1] == slot {
            let _gone = slots.swap_remove(i - 1);
            return;
        }
        i = i - 1;
    }
}

fn slot_for(address: usize, count: usize) -> (r: Option<Slot>)
    ensures
        r == slot_of(address, count as nat),
{
    if count == 0 {
        None
    } else {
        Some(Slot { address, count })
    }
}

fn register(slots: &mut Vec<Slot>, slot: Option<Slot>)
    ensures
        final(slots)@ == with_slot(old(slots)@, slot),
{
    if let Some(s) = slot {
        slots.push(s);
    }
}

// ---------------------------------------------------------------------------
// Hooks and environments
// ---------------------------------------------------------------------------

/// Register a reclaim hook. Each runs at the end of every collection, in registration order.
pub fn set_stw_reclaim_hook(roots: &mut Roots, hook: u64)
    ensures
        final(roots).view() == (RootSet {
            hooks: old(roots).view().hooks.push(hook),
            ..old(roots).view()
        }),
{
    roots.hooks.push(hook);
}

/// The reclaim hooks to run, in order.
pub fn stw_reclaim_hooks(roots: &Roots) -> (r: Vec<u64>)
    ensures
        r@ == roots.view().hooks,
{
    let mut out: Vec<u64> = Vec::new();
    for i in 0..roots.hooks.len()
        invariant
            out@ == roots.hooks@.take(i as int),
    {
        out.push(roots.hooks[i]);
        assert(roots.hooks@.take(i + 1) =~= roots.hooks@.take(i as int).push(
            roots.hooks@[i as int],
        ));
    }
    assert(roots.hooks@.take(roots.hooks@.len() as int) =~= roots.hooks@);
    out
}

/// Stands for a registered environment until it is released.
#[derive(Debug)]
pub struct EnvRootGuard;

/// Register an environment for the duration of its use.
pub fn push_env_root(roots: &mut Roots, env: usize) -> (r: EnvRootGuard)
    ensures
        final(roots).view() == (RootSet {
            envs: old(roots).view().envs.push(env),
            ..old(roots).view()
        }),
{
    roots.envs.push(env);
    EnvRootGuard
}

impl EnvRootGuard {
    /// Unregister the innermost environment.
    pub fn release(self, roots: &mut Roots)
        ensures
            final(roots).view() == (RootSet {
                envs: if old(roots).view().envs.len() == 0 {
                    old(roots).view().envs
                } else {
                    old(roots).view().envs.drop_last()
                },
                ..old(roots).view()
            }),
    {
        let _env = roots.envs.pop();
    }
}

// ---------------------------------------------------------------------------
// Values
// ---------------------------------------------------------------------------

/// Stands for a registered slice of values until it is released.
#[derive(Debug)]
pub struct ValueRootGuard {
    pub entry: Option<Slot>,
}

/// Register a single value.
pub fn root_value(roots: &mut Roots, address: usize) -> (r: ValueRootGuard)
    ensures
        r.entry == Some(Slot { address, count: 1 }),
        final(roots).view() == (RootSet {
            values: old(roots).view().values.push(Slot { address, count: 1 }),
            ..old(roots).view()
        }),
{
    let slot = Slot { address, count: 1 };
    roots.values.push(slot);
    ValueRootGuard { entry: Some(slot) }
}

/// Register a slice of values.
pub fn root_values(roots: &mut Roots, address: usize, count: usize) -> (r: ValueRootGuard)
    ensures
        r.entry == slot_of(address, count as nat),
        final(roots).view() == (RootSet {
            values: with_slot(old(roots).view().values, slot_of(address, count as nat)),
            ..old(roots).view()
        }),
{
    let entry = slot_for(address, count);
    register(&mut roots.values, entry);
    ValueRootGuard { entry }
}

impl ValueRootGuard {
    /// Remove the guard's own entry.
    pub fn release(self, roots: &mut Roots)
        ensures
            final(roots).view() == (RootSet {
                values: released(old(roots).view().values, self.entry),
                ..old(roots).view()
            }),
    {
        if let Some(slot) = self.entry {
            unregister(&mut roots.values, slot);
        }
    }
}

/// A rooted value slot that owns its storage, for roots that live inside a struct.
#[derive(Debug)]
pub struct BoxedValueRoot {
    pub slot: Value,
    pub address: usize,
}

impl BoxedValueRoot {
    /// Register a slot at an address that holds the value.
    pub fn new(roots: &mut Roots, value: Value, address: usize) -> (r: BoxedValueRoot)
        ensures
            r.slot == value,
            r.address == address,
            final(roots).view() == (RootSet {
                values: old(roots).view().values.push(Slot { address, count: 1 }),
                ..old(roots).view()
            }),
    {
        roots.values.push(Slot { address, count: 1 });
        BoxedValueRoot { slot: value, address }
    }

    pub fn get(&self) -> (r: &Value)
        ensures
            *r == self.slot,
    {
        &self.slot
    }

    pub fn set(&mut self, value: Value)
        ensures
            final(self).slot == value,
            final(self).address == old(self).address,
    {
        self.slot = value;
    }

    pub fn get_mut(&mut self) -> (r: &mut Value)
        ensures
            *r == old(self).slot,
            *final(r) == final(self).slot,
            final(self).address == old(self).address,
    {
        &mut self.slot
    }

    /// Remove the slot's entry, before the storage goes.
    pub fn release(self, roots: &mut Roots)
        ensures
            final(roots).view() == (RootSet {
                values: without_slot(
                    old(roots).view().values,
                    Slot { address: self.address, count: 1 },
                ),
                ..old(roots).view()
            }),
    {
        unregister(&mut roots.values, Slot { address: self.address, count: 1 });
    }
}

/// A rooted, growable vector of values that owns its storage. Growing registers it anew, so that
/// the entry always matches the live buffer.
#[derive(Debug)]
pub struct RootedValueVec {
    pub vals: Vec<Value>,
    /// Where the buffer is.
    pub address: usize,
}

impl RootedValueVec {
    /// The vector's slot.
    pub open spec fn entry(&self) -> Option<Slot> {
        slot_of(self.address, self.vals@.len())
    }

    /// Register a vector whose buffer is at an address.
    pub fn new(roots: &mut Roots, vals: Vec<Value>, address: usize) -> (r: RootedValueVec)
        ensures
            r.vals@ == vals@,
            r.address == address,
            final(roots).view() == (RootSet {
                values: with_slot(old(roots).view().values, r.entry()),
                ..old(roots).view()
            }),
    {
        let entry = slot_for(address, vals.len());
        register(&mut roots.values, entry);
        RootedValueVec { vals, address }
    }

    fn unregister(&self, roots: &mut Roots)
        ensures
            final(roots).view() == (RootSet {
                values: released(old(roots).view().values, self.entry()),
                ..old(roots).view()
            }),
    {
        if let Some(slot) = slot_for(self.address, self.vals.len()) {
            unregister(&mut roots.values, slot);
        }
    }

    /// Append a value; `address` is where the buffer is afterwards.
    pub fn push(&mut self, roots: &mut Roots, v: Value, address: usize)
        ensures
            final(self).vals@ == old(self).vals@.push(v),
            final(self).address == address,
            final(roots).view() == (RootSet {
                values: with_slot(
                    released(old(roots).view().values, old(self).entry()),
                    final(self).entry(),
                ),
                ..old(roots).view()
            }),
    {
        self.unregister(roots);
        self.vals.push(v);
        self.address = address;
        let entry = slot_for(address, self.vals.len());
        register(&mut roots.values, entry);
    }

    pub fn as_slice(&self) -> (r: &[Value])
        ensures
            r@ == self.vals@,
    {
        self.vals.as_slice()
    }

    /// Mutable access for permutation in place; the length stays.
    pub fn as_mut_slice(&mut self) -> (r: &mut [Value])
        ensures
            r@ == old(self).vals@,
            final(r)@ == final(self).vals@,
            final(self).address == old(self).address,
    {
        self.vals.as_mut_slice()
    }

    pub fn len(&self) -> (r: usize)
        ensures
            r == self.vals@.len(),
    {
        self.vals.len()
    }

    pub fn is_empty(&self) -> (r: bool)
        ensures
            r == (self.vals@.len() == 0),
    {
        self.vals.len() == 0
    }

    /// Unregister and hand the vector back.
    pub fn into_vec(self, roots: &mut Roots) -> (r: Vec<Value>)
        ensures
            r@ == self.vals@,
            final(roots).view() == (RootSet {
                values: released(old(roots).view().values, self.entry()),
                ..old(roots).view()
            }),
    {
        self.unregister(roots);
        self.vals
    }
}

/// Register a slice of values that the caller's own struct holds.
pub fn register_value_root_slice(roots: &mut Roots, address: usize, count: usize)
    ensures
        final(roots).view() == (RootSet {
            values: with_slot(old(roots).view().values, slot_of(address, count as nat)),
            ..old(roots).view()
        }),
{
    let entry = slot_for(address, count);
    register(&mut roots.values, entry);
}

/// Remove the entry that [`register_value_root_slice`] made.
pub fn unregister_value_root_slice(roots: &mut Roots, address: usize, count: usize)
    ensures
        final(roots).view() == (RootSet {
            values: released(old(roots).view().values, slot_of(address, count as nat)),
            ..old(roots).view()
        }),
{
    if let Some(slot) = slot_for(address, count) {
        unregister(&mut roots.values, slot);
    }
}

// ---------------------------------------------------------------------------
// Optional values
// ---------------------------------------------------------------------------

/// Stands for a registered slice of optional values until it is released.
#[derive(Debug)]
pub struct OptionValueRootGuard {
    pub entry: Option<Slot>,
}

/// Register a slice of optional values.
pub fn root_option_values(roots: &mut Roots, address: usize, count: usize) -> (r:
    OptionValueRootGuard)
    ensures
        r.entry == slot_of(address, count as nat),
        final(roots).view() == (RootSet {
            option_values: with_slot(
                old(roots).view().option_values,
                slot_of(address, count as nat),
            ),
            ..old(roots).view()
        }),
{
    let entry = slot_for(address, count);
    register(&mut roots.option_values, entry);
    OptionValueRootGuard { entry }
}

impl OptionValueRootGuard {
    /// Remove the guard's own entry.
    pub fn release(self, roots: &mut Roots)
        ensures
            final(roots).view() == (RootSet {
                option_values: released(old(roots).view().option_values, self.entry),
                ..old(roots).view()
            }),
    {
        if let Some(slot) = self.entry {
            unregister(&mut roots.option_values, slot);
        }
    }
}

/// Register a fixed slice of optional values that the caller's own struct holds.
pub fn register_option_value_root(roots: &mut Roots, address: usize, count: usize)
    ensures
        final(roots).view() == (RootSet {
            option_values: with_slot(
                old(roots).view().option_values,
                slot_of(address, count as nat),
            ),
            ..old(roots).view()
        }),
{
    let entry = slot_for(address, count);
    register(&mut roots.option_values, entry);
}

/// Remove the entry that [`register_option_value_root`] made.
pub fn unregister_option_value_root(roots: &mut Roots, address: usize, count: usize)
    ensures
        final(roots).view() == (RootSet {
            option_values: released(
                old(roots).view().option_values,
                slot_of(address, count as nat),
            ),
            ..old(roots).view()
        }),
{
    if let Some(slot) = slot_for(address, count) {
        unregister(&mut roots.option_values, slot);
    }
}

// ---------------------------------------------------------------------------
// Safepoints
// ---------------------------------------------------------------------------

/// What a thread does at a safepoint.
#[derive(Clone, Copy, Debug, PartialEq, Eq, Structural)]
pub enum SafepointAction {
    /// Go on.
    Nothing,
    /// Wait until another thread has collected.
    Park,
    /// Collect, with the roots of [`root_sources`], then run the reclaim hooks.
    Collect,
}

/// The signals of the collector.
#[derive(Clone, Copy, Debug, PartialEq, Eq, Structural)]
pub struct GcSignals {
    /// A collection is asked for.
    pub requested: bool,
    /// A thread is collecting.
    pub in_progress: bool,
}

/// What a thread does at a safepoint, where `took` says whether it won the request and `began`
/// whether it could stop the world.
pub open spec fn safepoint_action(
    requested: bool,
    in_progress: bool,
    took: bool,
    began: bool,
) -> SafepointAction {
    if in_progress {
        SafepointAction::Park
    } else if !requested {
        SafepointAction::Nothing
    } else if took && began {
        SafepointAction::Collect
    } else {
        SafepointAction::Park
    }
}

/// A collection is asked for once a thread is at a safepoint: it was before, or stress mode is due.
pub open spec fn asked_for(modes: DebugModes, signals: GcSignals) -> bool {
    signals.requested || due(modes.stress_period as nat, modes.stress_tick as nat)
}

/// Whether a collection is still asked for after a safepoint: the thread that wins the request takes
/// it, whether it can stop the world or not; while another thread collects, nobody tries.
pub open spec fn request_left(requested: bool, in_progress: bool, took: bool) -> bool {
    requested && (in_progress || !took)
}

/// A request is answered by one collection: once a thread has taken it, the next safepoint goes on,
/// whoever is there.
pub proof fn law_request_is_taken_once(took: bool, began: bool)
    ensures
        safepoint_action(request_left(true, false, true), false, took, began)
            == SafepointAction::Nothing,
{
}

/// A safepoint of the interpreter. In stress mode a collection is requested first. `took` says
/// whether the thread wins the request, `began` whether it can stop the world.
pub fn gc_safepoint(modes: &mut DebugModes, signals: &mut GcSignals, took: bool, began: bool) -> (r:
    SafepointAction)
    ensures
        final(signals).in_progress == old(signals).in_progress,
        final(signals).requested == request_left(
            asked_for(*old(modes), *old(signals)),
            old(signals).in_progress,
            took,
        ),
        r == safepoint_action(
            asked_for(*old(modes), *old(signals)),
            old(signals).in_progress,
            took,
            began,
        ),
        final(modes).stress_period == old(modes).stress_period,
        final(modes).quarantine == old(modes).quarantine,
        final(modes).stress_tick == crate::debug_modes::next_tick(
            old(modes).stress_period as nat,
            old(modes).stress_tick as nat,
        ) as usize,
{
    if stress_due(modes) {
        signals.requested = true;
    }
    if !signals.requested && !signals.in_progress {
        return SafepointAction::Nothing;
    }
    if signals.in_progress {
        return SafepointAction::Park;
    }
    if !took {
        return SafepointAction::Park;
    }
    signals.requested = false;
    if !began {
        return SafepointAction::Park;
    }
    SafepointAction::Collect
}

/// A collection point of the asynchronous runtime: it acts as [`gc_safepoint`], and collects
/// without an innermost environment.
pub fn async_gc_collect(modes: &mut DebugModes, signals: &mut GcSignals, took: bool, began: bool) -> (r:
    SafepointAction)
    ensures
        final(signals).in_progress == old(signals).in_progress,
        final(signals).requested == request_left(
            asked_for(*old(modes), *old(signals)),
            old(signals).in_progress,
            took,
        ),
        r == safepoint_action(
            asked_for(*old(modes), *old(signals)),
            old(signals).in_progress,
            took,
            began,
        ),
        final(modes).stress_period == old(modes).stress_period,
        final(modes).quarantine == old(modes).quarantine,
        final(modes).stress_tick == crate::debug_modes::next_tick(
            old(modes).stress_period as nat,
            old(modes).stress_tick as nat,
        ) as usize,
{
    gc_safepoint(modes, signals, took, began)
}

/// An immediate collection, whatever was requested: it is only put off while another thread
/// collects.
pub fn force_collect(began: bool) -> (r: SafepointAction)
    ensures
        r == (if began {
            SafepointAction::Collect
        } else {
            SafepointAction::Park
        }),
{
    if began {
        SafepointAction::Collect
    } else {
        SafepointAction::Park
    }
}

/// Where a collection finds its roots.
#[derive(Clone, Copy, Debug, PartialEq, Eq, Structural)]
pub enum RootSource {
    Registered,
    InnermostEnv,
    ThreadEnvs,
    Values,
    InteropMethods,
    OptionValues,
    DynamicBindings,
    Taps,
    InFlightAllocations,
}

/// The sources of a collection's roots, in order.
pub open spec fn sources(with_env: bool) -> Seq<RootSource> {
    if with_env {
        seq![
            RootSource::Registered,
            RootSource::InnermostEnv,
            RootSource::ThreadEnvs,
            RootSource::Values,
            RootSource::InteropMethods,
            RootSource::OptionValues,
            RootSource::DynamicBindings,
            RootSource::Taps,
            RootSource::InFlightAllocations,
        ]
    } else {
        seq![
            RootSource::Registered,
            RootSource::ThreadEnvs,
            RootSource::Values,
            RootSource::InteropMethods,
            RootSource::OptionValues,
            RootSource::DynamicBindings,
            RootSource::Taps,
            RootSource::InFlightAllocations,
        ]
    }
}

/// The sources of a collection's roots, in order; the asynchronous runtime collects without an
/// innermost environment.
pub fn root_sources(with_env: bool) -> (r: Vec<RootSource>)
    ensures
        r@ == sources(with_env),
{
    let mut out: Vec<RootSource> = Vec::new();
    out.push(RootSource::Registered);
    if with_env {
        out.push(RootSource::InnermostEnv);
    }
    out.push(RootSource::ThreadEnvs);
    out.push(RootSource::Values);
    out.push(RootSource::InteropMethods);
    out.push(RootSource::OptionValues);
    out.push(RootSource::DynamicBindings);
    out.push(RootSource::Taps);
    out.push(RootSource::InFlightAllocations);
    assert(out@ =~= sources(with_env));
    out
}

// ---------------------------------------------------------------------------
// Laws
// ---------------------------------------------------------------------------

proof fn lemma_position_found(slots: Seq<Slot>, slot: Slot)
    ensures
        slot_position(slots, slot) matches Some(i) ==> 0 <= i < slots.len() && slots[i] == slot,
        slot_position(slots, slot) is Some <==> slots.contains(slot),
    decreases slots.len(),
{
    if slots.len() > 0 {
        let rest = slots.drop_last();
        lemma_position_found(rest, slot);
        if slots.last() == slot {
            assert(slots[slots.len() - 1] == slot);
        } else {
            if rest.contains(slot) {
                let i = choose|i: int| 0 <= i < rest.len() && rest[i] == slot;
                assert(slots[i] == slot);
            }
            if slots.contains(slot) {
                let i = choose|i: int| 0 <= i < slots.len() && slots[i] == slot;
                assert(rest[i] == slot);
            }
        }
    }
}

/// Releasing a root removes one registration of exactly that slot: every other registration
/// stays, in whatever order guards are released.
pub proof fn law_release_is_by_identity(slots: Seq<Slot>, slot: Slot)
    ensures
        without_slot(slots, slot).to_multiset() == slots.to_multiset().remove(slot),
{
    broadcast use vstd::seq_lib::group_to_multiset_ensures;

    lemma_position_found(slots, slot);
    match slot_position(slots, slot) {
        Some(i) => {
            let last = slots.last();
            let front = slots.drop_last();
            assert(slots =~= front.push(last));
            assert(slots.to_multiset() == front.to_multiset().insert(last));
            let after = slots.update(i, last).drop_last();
            if i == slots.len() - 1 {
                assert(after =~= front);
                assert(after.to_multiset() =~= slots.to_multiset().remove(slot));
            } else {
                assert(after =~= front.update(i, last));
                lemma_update_multiset(front, i, last);
                assert(front[i] == slot);
                assert(front.to_multiset().count(slot) > 0) by {
                    assert(front.contains(slot));
                }
                assert(after.to_multiset() =~= slots.to_multiset().remove(slot));
            }
        },
        None => {
            assert(slots.to_multiset().count(slot) == 0);
            assert(slots.to_multiset().remove(slot) =~= slots.to_multiset());
        },
    }
}

proof fn lemma_update_multiset(s: Seq<Slot>, i: int, x: Slot)
    requires
        0 <= i < s.len(),
    ensures
        s.update(i, x).to_multiset() == s.to_multiset().remove(s[i]).insert(x),
{
    broadcast use vstd::seq_lib::group_to_multiset_ensures;

    let rest = s.remove(i);
    assert(rest.to_multiset() == s.to_multiset().remove(s[i]));
    let after = s.update(i, x);
    assert(after.remove(i) =~= rest);
    assert(after.remove(i).to_multiset() == after.to_multiset().remove(x));
    assert(after.to_multiset().count(x) > 0) by {
        assert(after[i] == x);
        assert(after.contains(x));
    }
    assert(after.to_multiset() =~= after.to_multiset().remove(x).insert(x));
}

/// Two roots released out of stack order: after the first goes, the second is still registered;
/// after both have gone, what was registered before is what is left.
pub proof fn law_out_of_order_release(slots: Seq<Slot>, a: Slot, b: Slot)
    ensures
        without_slot(slots.push(a).push(b), a).contains(b),
        without_slot(without_slot(slots.push(a).push(b), a), b).to_multiset()
            == slots.to_multiset(),
{
    broadcast use vstd::seq_lib::group_to_multiset_ensures;

    let both = slots.push(a).push(b);
    law_release_is_by_identity(both, a);
    let one = without_slot(both, a);
    law_release_is_by_identity(one, b);
    assert(both.to_multiset() == slots.to_multiset().insert(a).insert(b));
    assert(one.to_multiset() =~= slots.to_multiset().insert(b));
    assert(one.to_multiset().count(b) > 0);
    assert(without_slot(one, b).to_multiset() =~= slots.to_multiset());
}

} // verus!
