//! Mutable host objects.

use cljrs::javamap::{
    builtin_array_deque_new, builtin_array_list_new, builtin_completable_future_new,
    builtin_hash_set_new, builtin_hashmap_new, builtin_instant_of_epoch_milli,
    builtin_string_builder_new, dispatch_any, iterator_of, native_coll_count, native_coll_get,
    native_coll_items, Heap,
};
use cljrs::value::Value;

fn call(heap: &mut Heap, target: &Value, method: &str, args: &[Value]) -> Value {
    let Value::NativeObject(handle) = target else {
        panic!("a handle");
    };
    let printed: Vec<String> = args
        .iter()
        .map(|a| match a {
            Value::Str(s) => s.clone(),
            Value::Long(k) => k.to_string(),
            _ => String::new(),
        })
        .collect();
    dispatch_any(heap, *handle, method, args, &printed)
        .expect("a method")
        .expect("a result")
}

fn n(x: i64) -> Value {
    Value::Long(x)
}

#[test]
fn maps_put_and_get() {
    let mut heap = Heap::new();
    let m = builtin_hashmap_new(&mut heap, &[]).unwrap();
    assert_eq!(call(&mut heap, &m, "put", &[n(1), n(10)]), Value::Nil);
    assert_eq!(call(&mut heap, &m, "put", &[n(1), n(11)]), n(10));
    assert_eq!(call(&mut heap, &m, "get", &[n(1)]), n(11));
    assert_eq!(call(&mut heap, &m, "get", &[n(2)]), Value::Nil);
    assert_eq!(call(&mut heap, &m, "size", &[]), n(1));
    assert_eq!(native_coll_get(&m, &n(1), &heap), Some(n(11)));
    assert_eq!(call(&mut heap, &m, "remove", &[n(1)]), n(11));
    assert_eq!(native_coll_count(&m, &heap), Some(0));
}

#[test]
fn lists_grow_and_are_walked() {
    let mut heap = Heap::new();
    let l = builtin_array_list_new(&mut heap, &[]).unwrap();
    for i in 0..3 {
        call(&mut heap, &l, "add", &[n(i)]);
    }
    call(&mut heap, &l, "set", &[n(1), n(9)]);
    assert_eq!(native_coll_items(&l, &heap), Some(vec![n(0), n(9), n(2)]));
    let it = iterator_of(&mut heap, &l).unwrap();
    let mut seen = vec![];
    while call(&mut heap, &it, "hasNext", &[]) == Value::Bool(true) {
        seen.push(call(&mut heap, &it, "next", &[]));
    }
    assert_eq!(seen, vec![n(0), n(9), n(2)]);
}

#[test]
fn sets_deques_futures_and_builders() {
    let mut heap = Heap::new();
    let s = builtin_hash_set_new(&mut heap, &[]).unwrap();
    assert_eq!(call(&mut heap, &s, "add", &[n(1)]), Value::Bool(true));
    assert_eq!(call(&mut heap, &s, "add", &[n(1)]), Value::Bool(false));
    let q = builtin_array_deque_new(&mut heap, &[]).unwrap();
    call(&mut heap, &q, "push", &[n(1)]);
    call(&mut heap, &q, "push", &[n(2)]);
    assert_eq!(call(&mut heap, &q, "pop", &[]), n(2));
    let f = builtin_completable_future_new(&mut heap, &[]).unwrap();
    assert_eq!(call(&mut heap, &f, "complete", &[n(1)]), Value::Bool(true));
    assert_eq!(call(&mut heap, &f, "complete", &[n(2)]), Value::Bool(false));
    assert_eq!(call(&mut heap, &f, "get", &[]), n(1));
    let b = builtin_string_builder_new(&mut heap, &[]).unwrap();
    call(&mut heap, &b, "append", &[Value::Str("ab".to_string())]);
    assert_eq!(
        call(&mut heap, &b, "toString", &[]),
        Value::Str("ab".to_string())
    );
    assert_eq!(
        builtin_instant_of_epoch_milli(&[n(5)]).unwrap(),
        Value::Instant(5)
    );
}

#[test]
fn unknown_methods_are_not_taken() {
    let mut heap = Heap::new();
    let m = builtin_hashmap_new(&mut heap, &[]).unwrap();
    let Value::NativeObject(handle) = m else {
        panic!("a handle");
    };
    assert!(dispatch_any(&mut heap, handle, "noSuch", &[], &[]).is_none());
    assert!(dispatch_any(&mut heap, 99, "size", &[], &[]).is_none());
}
