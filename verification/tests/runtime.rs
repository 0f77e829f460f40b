//! Collector switches, roots, bindings, output and the call stack.

use cljrs::boot::register_eval;
use cljrs::call_trace::{record_error_trace, take_error_trace, CallStack, FrameGuard};
use cljrs::debug_modes::{
    quarantine_enabled, set_quarantine, set_stress_period, stress_due, DebugModes,
};
use cljrs::dynamics::{
    deref_var, is_thread_bound, push_frame, set_thread_local, Bindings, Var,
};
use cljrs::eval_error::{format_eval_error, EvalError};
use cljrs::form::Span;
use cljrs::gc_roots::{
    async_gc_collect, gc_safepoint, root_value, GcSignals, RootedValueVec, Roots, SafepointAction,
    Slot,
};
use cljrs::interrupt::{clear, pending, request, take, Interrupt};
use cljrs::io_target::{
    emit, emit_ln, flush_current, pop_capture, pop_stream, push_capture, push_stream, Destination,
    Targets,
};
use cljrs::stack_scan::{record_stack_base, scan_and_mark, stack_top, StackScan};
use cljrs::value::Value;
use cljrs::versioned::{
    base_ns_name, ensure_versioned_ns_loaded, pin_if_available, resolve_versioned_value,
    VERSIONED_LOOKUP,
};

#[test]
fn restricted_profile_returns_a_stable_policy_error() {
    let errors = [
        resolve_versioned_value("user", None, "value", "abc1234")
            .expect_err("versioned values must be forbidden"),
        pin_if_available("other.code", "abc1234")
            .expect_err("versioned discovery must be forbidden"),
        ensure_versioned_ns_loaded("other.code", "abc1234")
            .expect_err("versioned loading must be forbidden"),
    ];

    assert!(errors.into_iter().all(
        |error| matches!(error, EvalError::ForbiddenEffect(operation) if operation == VERSIONED_LOOKUP)
    ));
}

#[test]
fn stress_due_honors_period() {
    let mut modes = DebugModes::from_settings(None, None);
    set_stress_period(&mut modes, 3);
    let fired: Vec<bool> = (0..6).map(|_| stress_due(&mut modes)).collect();
    assert_eq!(fired, vec![false, false, true, false, false, true]);
    set_stress_period(&mut modes, 0);
    assert!(!stress_due(&mut modes));
}

#[test]
fn debug_modes_come_from_settings() {
    let modes = DebugModes::from_settings(Some("1"), Some("4"));
    assert!(quarantine_enabled(&modes));
    assert_eq!(modes.stress_period, 4);
    let mut off = DebugModes::from_settings(None, None);
    assert!(!quarantine_enabled(&off));
    set_quarantine(&mut off, true);
    assert!(quarantine_enabled(&off));
}

#[test]
fn a_versioned_name_has_a_base() {
    assert_eq!(base_ns_name("my.ns@abc"), "my.ns");
    assert_eq!(base_ns_name("my.ns"), "my.ns");
}

#[test]
fn value_root_guards_unregister_by_identity_not_lifo() {
    let mut roots = Roots::new();
    let (a, b) = (Slot { address: 0x10, count: 1 }, Slot { address: 0x20, count: 1 });
    let ga = root_value(&mut roots, 0x10);
    let gb = root_value(&mut roots, 0x20);
    ga.release(&mut roots); // out of LIFO order
    assert!(
        roots.values.contains(&b),
        "live root must survive an out-of-order guard drop"
    );
    assert!(
        !roots.values.contains(&a),
        "dropped guard's entry must be unregistered"
    );
    gb.release(&mut roots);
    assert!(!roots.values.contains(&b));
}

#[test]
fn rooted_vectors_follow_their_storage() {
    let mut roots = Roots::new();
    let mut v = RootedValueVec::new(&mut roots, vec![Value::Long(1)], 0x10);
    assert!(roots.values.contains(&Slot { address: 0x10, count: 1 }));
    v.push(&mut roots, Value::Long(2), 0x30);
    assert!(roots.values.contains(&Slot { address: 0x30, count: 2 }));
    assert!(!roots.values.contains(&Slot { address: 0x10, count: 1 }));
    assert_eq!(v.into_vec(&mut roots), vec![Value::Long(1), Value::Long(2)]);
    assert!(roots.values.is_empty());
}

#[test]
fn an_interrupt_is_taken_once() {
    let mut flag = Interrupt::new();
    assert!(!take(&mut flag));
    request(&mut flag);
    assert!(pending(&flag));
    assert!(take(&mut flag));
    assert!(!take(&mut flag));
    request(&mut flag);
    clear(&mut flag);
    assert!(!pending(&flag));
}

#[test]
fn captures_get_what_is_printed() {
    let mut t = Targets::new();
    assert_eq!(emit(&mut t, "x"), Destination::Stdout);
    push_stream(&mut t, true);
    assert_eq!(emit(&mut t, "x"), Destination::Stderr);
    push_capture(&mut t);
    assert_eq!(emit(&mut t, "a"), Destination::Captured);
    emit_ln(&mut t, "b");
    assert_eq!(pop_capture(&mut t), Some("ab\n".to_string()));
    pop_stream(&mut t);
    assert_eq!(flush_current(&t), Some(Destination::Stdout));
}

#[test]
fn the_innermost_binding_wins() {
    let mut b = Bindings::new();
    let mut t = Targets::new();
    let var = Var { key: 5, root: Some(Value::Long(0)) };
    assert_eq!(deref_var(&b, &var), Some(Value::Long(0)));
    assert!(!set_thread_local(&mut b, &var, Value::Long(9)));
    let outer = push_frame(&mut b, &mut t, vec![(5, Value::Long(1))]);
    let inner = push_frame(&mut b, &mut t, vec![(5, Value::Long(2))]);
    assert_eq!(deref_var(&b, &var), Some(Value::Long(2)));
    assert!(set_thread_local(&mut b, &var, Value::Long(3)));
    assert_eq!(deref_var(&b, &var), Some(Value::Long(3)));
    inner.release(&mut b, &mut t);
    assert_eq!(deref_var(&b, &var), Some(Value::Long(1)));
    outer.release(&mut b, &mut t);
    assert!(!is_thread_bound(&b, &var));
}

#[test]
fn the_deepest_trace_is_kept() {
    let mut s = CallStack::new();
    let at = |line: u32| Span { file: "f".to_string(), line, col: 1 };
    let outer = FrameGuard::push(&mut s, "a".to_string(), "user".to_string(), at(1));
    let inner = FrameGuard::push(&mut s, "b".to_string(), "user".to_string(), at(2));
    record_error_trace(&mut s);
    inner.release(&mut s);
    record_error_trace(&mut s);
    outer.release(&mut s);
    assert_eq!(take_error_trace(&mut s).map(|t| t.len()), Some(2));
    assert!(take_error_trace(&mut s).is_none());
}

#[test]
fn errors_are_accounted_for() {
    let e = EvalError::UnboundSymbol("x".to_string());
    assert_eq!(format_eval_error(&e, ""), "Unable to resolve symbol: x");
    let e = EvalError::Thrown(Value::Long(1));
    assert_eq!(format_eval_error(&e, "1"), "Unhandled exception: 1");
    let e = EvalError::Arity {
        name: "f".to_string(),
        expected: "2".to_string(),
        got: 1,
    };
    assert_eq!(
        format_eval_error(&e, ""),
        "Wrong number of args (1) passed to f; expected 2"
    );
    assert_eq!(register_eval(&vec!["user".to_string()]).len(), 1);
}

#[test]
fn words_that_name_objects_mark_them() {
    let mut scan = StackScan::from_setting(None);
    record_stack_base(&mut scan, 0x1000);
    let mut marked = vec![false, false];
    let found = scan_and_mark(&vec![0x50, 0x7, 0x50], &vec![0x50, 0x60], &mut marked);
    assert_eq!(marked, vec![true, false]);
    assert_eq!(found, 1);
    assert!(stack_top(&mut scan, 0x800, None).is_some());
}

#[test]
fn a_request_is_taken_by_the_thread_that_wins_it() {
    let quiet = || DebugModes { quarantine: false, stress_period: 0, stress_tick: 0 };
    let asked = || GcSignals { requested: true, in_progress: false };
    let mut signals = asked();
    let won = gc_safepoint(&mut quiet(), &mut signals, true, true);
    assert_eq!((won, signals.requested), (SafepointAction::Collect, false));
    assert_eq!(gc_safepoint(&mut quiet(), &mut signals, true, true), SafepointAction::Nothing);
    let mut signals = asked();
    let raced = gc_safepoint(&mut quiet(), &mut signals, true, false);
    assert_eq!((raced, signals.requested), (SafepointAction::Park, false));
    let mut signals = asked();
    let lost = async_gc_collect(&mut quiet(), &mut signals, false, true);
    assert_eq!((lost, signals.requested), (SafepointAction::Park, true));
    let mut signals = GcSignals { requested: true, in_progress: true };
    let busy = gc_safepoint(&mut quiet(), &mut signals, true, true);
    assert_eq!((busy, signals.requested), (SafepointAction::Park, true));
    let mut stress = DebugModes { quarantine: false, stress_period: 1, stress_tick: 0 };
    let mut signals = GcSignals { requested: false, in_progress: false };
    let forced = gc_safepoint(&mut stress, &mut signals, true, true);
    assert_eq!((forced, signals.requested), (SafepointAction::Collect, false));
}
