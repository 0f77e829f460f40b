//! Persistent maps and sets, in insertion order.

use cljrs::array_map::{AssocResult, PersistentArrayMap};
use cljrs::bytes::Rank;
use cljrs::hash_map::PersistentHashMap;
use cljrs::hash_set::PersistentHashSet;
use cljrs::sorted_by::{SortedByMap, SortedBySet};
use cljrs::transient_set::TransientSet;
use cljrs::value::{Name, Value, ValueError, ValueResult};

fn kw(s: &str) -> Value {
    Value::Keyword(Name::simple(s))
}

fn long(n: i64) -> Value {
    Value::Long(n)
}

#[test]
fn test_basic_ops() {
    let m = PersistentHashMap::empty();
    let m = m.assoc(kw("a"), long(1));
    let m = m.assoc(kw("b"), long(2));
    assert_eq!(m.count(), 2);
    assert_eq!(m.get(&kw("a")), Some(&long(1)));
    assert_eq!(m.get(&kw("b")), Some(&long(2)));
    assert_eq!(m.get(&kw("c")), None);
}

#[test]
fn test_update() {
    let m = PersistentHashMap::empty()
        .assoc(kw("a"), long(1))
        .assoc(kw("a"), long(99));
    assert_eq!(m.count(), 1);
    assert_eq!(m.get(&kw("a")), Some(&long(99)));
}

#[test]
fn test_dissoc() {
    let m = PersistentHashMap::empty()
        .assoc(kw("a"), long(1))
        .assoc(kw("b"), long(2));
    let m2 = m.dissoc(&kw("a"));
    assert_eq!(m2.count(), 1);
    assert_eq!(m2.get(&kw("a")), None);
    assert_eq!(m2.get(&kw("b")), Some(&long(2)));
}

#[test]
fn test_many_entries() {
    let mut m = PersistentHashMap::empty();
    for i in 0i64..200 {
        m = m.assoc(long(i), long(i * 10));
    }
    assert_eq!(m.count(), 200);
    for i in 0i64..200 {
        assert_eq!(m.get(&long(i)), Some(&long(i * 10)));
    }
}

#[test]
fn test_merge() {
    let a = PersistentHashMap::empty()
        .assoc(kw("a"), long(1))
        .assoc(kw("b"), long(2));
    let b = PersistentHashMap::empty()
        .assoc(kw("b"), long(99))
        .assoc(kw("c"), long(3));
    let merged = a.merge(&b);
    assert_eq!(merged.count(), 3);
    assert_eq!(merged.get(&kw("a")), Some(&long(1)));
    assert_eq!(merged.get(&kw("b")), Some(&long(99))); // right wins
    assert_eq!(merged.get(&kw("c")), Some(&long(3)));
}

#[test]
fn test_equality() {
    let a = PersistentHashMap::empty()
        .assoc(kw("a"), long(1))
        .assoc(kw("b"), long(2));
    let b = PersistentHashMap::empty()
        .assoc(kw("b"), long(2))
        .assoc(kw("a"), long(1));
    assert!(a == b);
}

#[test]
fn test_from_array_map() {
    let mut am = PersistentArrayMap::empty();
    for i in 0..3i64 {
        let AssocResult::Array(next) = am.assoc(long(i), long(i * 2)) else {
            panic!()
        };
        am = next;
    }
    let hm = PersistentHashMap::from_array_map(&am);
    assert_eq!(hm.count(), 3);
    for i in 0..3i64 {
        assert_eq!(hm.get(&long(i)), Some(&long(i * 2)));
    }
}

#[test]
fn hash_map_test_iteration_order_matches_insertion_order() {
    let mut m = PersistentHashMap::empty();
    let keys = ["j", "i", "h", "g", "f", "e", "d", "c", "b", "a", "z", "y"];
    for k in keys {
        m = m.assoc(kw(k), long(0));
    }
    let iterated: Vec<Value> = m.keys();
    let expected: Vec<Value> = keys.iter().map(|k| kw(k)).collect();
    assert_eq!(iterated, expected);
}

#[test]
fn test_reassoc_keeps_original_position() {
    let m = PersistentHashMap::empty()
        .assoc(kw("a"), long(1))
        .assoc(kw("b"), long(2))
        .assoc(kw("c"), long(3))
        .assoc(kw("b"), long(99));
    let keys = m.keys();
    assert_eq!(keys, vec![kw("a"), kw("b"), kw("c")]);
    assert_eq!(m.get(&kw("b")), Some(&long(99)));
}

#[test]
fn test_dissoc_preserves_remaining_order() {
    let m = PersistentHashMap::empty()
        .assoc(kw("a"), long(1))
        .assoc(kw("b"), long(2))
        .assoc(kw("c"), long(3))
        .dissoc(&kw("b"));
    assert_eq!(m.keys(), vec![kw("a"), kw("c")]);
}

#[test]
fn equal_lists_and_vectors_are_one_key() {
    let list = Value::List(vec![long(1), long(2)]);
    let vector = Value::Vector(vec![long(1), long(2)]);
    let m = PersistentHashMap::empty().assoc(list, long(1)).assoc(vector.clone(), long(2));
    assert_eq!(m.count(), 1);
    assert_eq!(m.get(&vector), Some(&long(2)));
}

#[test]
fn test_basic() {
    let s = PersistentHashSet::empty();
    let s = s.conj(long(1)).conj(long(2)).conj(long(3));
    assert_eq!(s.count(), 3);
    assert!(s.contains(&long(1)));
    assert!(s.contains(&long(2)));
    assert!(!s.contains(&long(99)));
}

#[test]
fn test_idempotent_conj() {
    let s = PersistentHashSet::empty().conj(long(1)).conj(long(1));
    assert_eq!(s.count(), 1);
}

#[test]
fn test_disj() {
    let s = PersistentHashSet::empty().conj(long(1)).conj(long(2));
    let s2 = s.disj(&long(1));
    assert!(!s2.contains(&long(1)));
    assert!(s2.contains(&long(2)));
    assert_eq!(s2.count(), 1);
}

#[test]
fn test_equality_order_independent() {
    let a = PersistentHashSet::from_iter(vec![long(1), long(2), long(3)]);
    let b = PersistentHashSet::from_iter(vec![long(3), long(1), long(2)]);
    assert!(a == b);
}

#[test]
fn hash_set_test_iteration_order_matches_insertion_order() {
    let s = PersistentHashSet::empty()
        .conj(long(10))
        .conj(long(3))
        .conj(long(7))
        .conj(long(1));
    let iterated: Vec<Value> = s.iter().into_iter().cloned().collect();
    assert_eq!(iterated, vec![long(10), long(3), long(7), long(1)]);
}

#[test]
fn a_transient_is_used_up_once() {
    let mut t = TransientSet::new();
    t.conj(long(1)).expect("conj");
    t.conj(long(2)).expect("conj");
    t.disj(&long(1)).expect("disj");
    assert_eq!(t.count(), 1);
    let s = t.persistent().expect("persistent");
    assert!(s.contains(&long(2)));
    assert!(matches!(
        t.conj(long(3)),
        Err(ValueError::TransientAlreadyPersisted)
    ));
}

fn by_long(a: &Value, b: &Value) -> ValueResult<Rank> {
    match (a, b) {
        (Value::Long(x), Value::Long(y)) => Ok(if x < y {
            Rank::Below
        } else if x == y {
            Rank::Same
        } else {
            Rank::Above
        }),
        _ => Err(ValueError::OutOfRange),
    }
}

#[test]
fn sorted_collections_keep_the_comparators_order() {
    let mut m = SortedByMap::new(Value::Nil);
    for n in [3, 1, 2] {
        m = m.assoc_with(long(n), long(n * 10), by_long).expect("assoc");
    }
    assert_eq!(m.keys(), vec![long(1), long(2), long(3)]);
    assert_eq!(m.get(&long(2)), Some(&long(20)));
    assert!(m.assoc_with(Value::Nil, long(0), by_long).is_err());
    let mut s = SortedBySet::new(Value::Nil);
    for n in [2, 1, 2] {
        s = s.conj_with(long(n), by_long).expect("conj");
    }
    assert_eq!(s.count(), 2);
    assert_eq!(s.iter(), &vec![long(1), long(2)]);
}

#[test]
fn doubles_compare_as_numbers() {
    let zero = Value::Double(0.0f64.to_bits());
    let minus = Value::Double((-0.0f64).to_bits());
    let nan = Value::Double(f64::NAN.to_bits());
    assert!(zero == minus);
    assert!(nan != nan);
}

/// Compares texts; a number on the left fails.
fn by_text(a: &Value, b: &Value) -> ValueResult<Rank> {
    match (a, b) {
        (Value::Str(x), Value::Str(y)) => Ok(if x < y {
            Rank::Below
        } else if x == y {
            Rank::Same
        } else {
            Rank::Above
        }),
        _ => Err(ValueError::Other("not a text".to_string())),
    }
}

#[test]
fn a_failed_comparison_fails_the_insert() {
    let str = |x: &str| Value::Str(x.to_string());
    let mut m = SortedByMap::new(Value::Nil);
    for x in ["b", "d", "c", "a", "b"] {
        m = m.assoc_with(str(x), str(&format!("{x}!")), by_text).expect("assoc");
    }
    assert_eq!(m.pairs.iter().map(|p| p.0.clone()).collect::<Vec<_>>(), vec![
        str("a"), str("b"), str("c"), str("d"),
    ]);
    // The middle of four is asked first: a number there ends the search, elsewhere it is not met.
    let mut broken = m.clone();
    broken.pairs[2].0 = Value::Long(1);
    let failed = broken.assoc_with(str("a"), Value::Nil, by_text);
    assert!(matches!(failed, Err(ValueError::Other(m)) if m == "not a text"));
    let mut unmet = m.clone();
    unmet.pairs[3].0 = Value::Long(1);
    assert_eq!(unmet.assoc_with(str("a"), Value::Nil, by_text).expect("assoc").count(), 4);
    let mut set = SortedBySet::new(Value::Nil);
    for x in ["b", "a"] {
        set = set.conj_with(str(x), by_text).expect("conj");
    }
    set.items[1] = Value::Long(1);
    assert!(set.conj_with(str("a"), by_text).is_err());
}
