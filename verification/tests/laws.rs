//! The library's laws, on concrete values.

use cljrs::bytes::{has_prefix, lex_compare, push_u64, read_u64, Rank};
use cljrs::calendar::{civil_from_days, days_from_civil};
use cljrs::codec::StoreValue;
use cljrs::crossing::{deserialize, serialize};
use cljrs::csv::{day_str, ts_str};
use cljrs::decimal::{int_string, push_padded, read_digits};
use cljrs::doubles::{at_most, less, of_long, to_long};
use cljrs::prefix::prefix_successor;
use cljrs::search::{find_from, replace_text, trim_trailing};
use cljrs::session::{collect_dep_src_paths, dep_source_paths, DepOutcome};
use cljrs::store::{Bound, Op, Store};
use cljrs::store_model::Index;
use cljrs::text::{chars_of, is_white_space, trim};
use cljrs::value::Value;

#[test]
fn a_prefix_ends_at_its_successor() {
    assert_eq!(prefix_successor(&[1, 2]), Some(vec![1, 3]));
    assert_eq!(prefix_successor(&[1, 255]), Some(vec![2]));
    assert_eq!(prefix_successor(&[255, 255]), None);
    assert_eq!(prefix_successor(&[]), None);
    let inside = [1, 2, 255, 255];
    assert!(has_prefix(&inside, &[1, 2]));
    assert_eq!(lex_compare(&inside, &[1, 3]), Rank::Below);
}

#[test]
fn numbers_sort_as_their_bytes() {
    let bytes = |n: u64| {
        let mut out = Vec::new();
        push_u64(n, &mut out);
        out
    };
    assert_eq!(read_u64(&bytes(70_000), 0), 70_000);
    assert_eq!(lex_compare(&bytes(255), &bytes(256)), Rank::Below);
}

#[test]
fn days_and_dates_are_inverse() {
    for day in [-719_468, -1, 0, 59, 18_262, 2_932_896] {
        let (y, m, d) = civil_from_days(day);
        assert_eq!(days_from_civil(y, m, d), day);
    }
    assert_eq!(civil_from_days(19_782), (2024, 2, 29));
    assert_eq!(day_str(19_782), "2024-02-29");
    assert_eq!(ts_str(0, 90_061), "1970-01-02 01:01:01");
    assert_eq!(ts_str(0, -1), "1969-12-31 23:59:59");
}

#[test]
fn digits_read_back() {
    let mut out = String::new();
    push_padded(&mut out, 42, 5);
    assert_eq!(out, "00042");
    assert_eq!(read_digits(out.as_bytes(), 0, 5), Some(42));
    assert_eq!(read_digits(b"4x", 0, 2), None);
    assert_eq!(int_string(i64::MIN), "-9223372036854775808");
}

#[test]
fn longs_become_their_nearest_doubles() {
    for n in [0i64, 1, -1, 1 << 53, (1 << 53) + 1, i64::MAX, i64::MIN] {
        assert_eq!(of_long(n), (n as f64).to_bits());
    }
    for x in [0.0f64, -0.5, 1.99, -2.0, 1e19, -1e19, f64::NAN, f64::INFINITY] {
        assert_eq!(to_long(x.to_bits()), x as i64);
    }
    let values = [f64::NEG_INFINITY, -1.0, -0.0, 0.0, 1e-300, 2.5, f64::NAN];
    for a in values {
        for b in values {
            assert_eq!(less(a.to_bits(), b.to_bits()), a < b);
            assert_eq!(at_most(a.to_bits(), b.to_bits()), a <= b);
        }
    }
}

#[test]
fn texts_are_searched() {
    let s = chars_of("abcabc");
    assert_eq!(find_from(&s, &chars_of("bc"), 2), Some(4));
    assert_eq!(find_from(&s, &chars_of("x"), 0), None);
    assert_eq!(replace_text("aXbX", "X", "--"), "a--b--");
    assert_eq!(trim_trailing("a//", '/'), "a");
    assert_eq!(trim("\u{2003} a b\n"), "a b");
}

#[test]
fn copies_cross_unchanged() {
    let v = Value::HashMap(vec![(
        Value::Str("k".to_string()),
        Value::Vector(vec![Value::Long(1), Value::Nil]),
    )]);
    assert_eq!(deserialize(serialize(&v).expect("crosses")), v);
}

#[test]
fn dependencies_bring_their_paths() {
    assert_eq!(dep_source_paths(None, "src".to_string()), vec!["src"]);
    let own = Some(vec!["lib".to_string()]);
    assert_eq!(dep_source_paths(own, "src".to_string()), vec!["lib"]);
    let deps = vec![
        (
            "a".to_string(),
            DepOutcome::Found(vec!["x".to_string(), "y".to_string()]),
        ),
        (
            "b".to_string(),
            DepOutcome::LocalMissing {
                root: "gone".to_string(),
            },
        ),
    ];
    let (paths, warnings) = collect_dep_src_paths(&deps);
    assert_eq!(paths, vec!["x", "y"]);
    assert_eq!(warnings.len(), 1);
}

fn scored() -> Store {
    let mut store = Store::open(&vec![]).expect("open");
    let ops: Vec<Op> = (1..=5u64)
        .map(|e| Op::Add {
            e,
            a: "score".to_string(),
            v: StoreValue::Long(10 * e as i64),
        })
        .collect();
    store.transact(&ops).expect("tx");
    store
}

#[test]
fn slices_reverse_limit_and_count() {
    let store = scored();
    let (low, high) = (StoreValue::Long(20), StoreValue::Long(40));
    let bound = |v, closed| Bound {
        e: None,
        a: Some("score"),
        v: Some(v),
        closed,
    };
    let ids = |closed, limit, reverse| -> Vec<u64> {
        store
            .slice(Index::Ave, &bound(&low, true), &bound(&high, closed), limit, reverse)
            .expect("slice")
            .into_iter()
            .map(|d| d.e)
            .collect()
    };
    assert_eq!(ids(true, None, false), [2, 3, 4]);
    assert_eq!(ids(false, None, false), [2, 3]);
    assert_eq!(ids(true, None, true), [4, 3, 2]);
    assert_eq!(ids(true, Some(2), true), [4, 3]);
    assert!(ids(true, Some(0), false).is_empty());
    assert_eq!(
        store
            .count_range(Index::Ave, &bound(&low, true), &bound(&high, true))
            .expect("count"),
        3
    );
    let whole = Bound {
        e: None,
        a: Some("score"),
        v: None,
        closed: true,
    };
    assert_eq!(
        store.slice(Index::Ave, &whole, &whole, None, false).expect("slice"),
        store.search(None, Some("score"), None).expect("search")
    );
}

#[test]
fn bounds_must_be_contiguous() {
    let store = scored();
    let gap = Bound {
        e: None,
        a: Some("score"),
        v: None,
        closed: true,
    };
    assert!(store.slice(Index::Eav, &gap, &gap, None, false).is_err());
    assert!(store.count_range(Index::Vae, &gap, &gap).is_err());
}

#[test]
fn a_failed_transaction_applies_nothing() {
    let mut store = scored();
    let before = store.search(None, None, None).expect("all");
    let too_long = StoreValue::Vec(vec![StoreValue::Str("x".repeat(5000))]);
    let ops = [
        Op::Add {
            e: 9,
            a: "score".to_string(),
            v: StoreValue::Long(1),
        },
        Op::Add {
            e: 9,
            a: "note".to_string(),
            v: too_long,
        },
    ];
    assert!(store.transact(&ops).is_err());
    assert_eq!(store.search(None, None, None).expect("all"), before);
}

#[test]
fn white_space_is_what_unicode_calls_so() {
    for n in 0..=0x10FFFFu32 {
        if let Some(c) = char::from_u32(n) {
            assert_eq!(is_white_space(c), c.is_whitespace(), "{n:x}");
        }
    }
}
