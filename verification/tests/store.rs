//! The triple store end to end, and its image on reopening.

use cljrs::codec::StoreValue;
use cljrs::store::{Datom, Op, Store};
use cljrs::store_model::AttrProps;

fn open() -> Store {
    Store::open(&vec![]).expect("open")
}

fn add(e: u64, a: &str, v: StoreValue) -> Op {
    Op::Add { e, a: a.into(), v }
}

fn retract(e: u64, a: &str, v: StoreValue) -> Op {
    Op::Retract { e, a: a.into(), v }
}

fn s(v: &str) -> StoreValue {
    StoreValue::Str(v.into())
}

#[test]
fn search_covers_the_pattern_case_tree() {
    let mut store = open();
    store
        .set_attr(
            "friend",
            AttrProps {
                cardinality_many: true,
                ref_type: false,
            },
        )
        .expect("schema");
    store
        .transact(&[
            add(1, "name", s("Ivan")),
            add(1, "age", StoreValue::Long(39)),
            add(2, "name", s("Petr")),
            add(2, "age", StoreValue::Long(22)),
            add(2, "friend", StoreValue::Ref(1)),
            add(2, "friend", StoreValue::Ref(3)),
            add(3, "name", s("Oleg")),
        ])
        .expect("transact");

    // (e a v) exact
    assert_eq!(
        store
            .search(Some(1), Some("name"), Some(&s("Ivan")))
            .expect("eav")
            .len(),
        1
    );
    assert!(store
        .search(Some(1), Some("name"), Some(&s("Nope")))
        .expect("eav")
        .is_empty());
    // (e a _)
    let names: Vec<StoreValue> = store
        .search(Some(2), Some("friend"), None)
        .expect("ea")
        .into_iter()
        .map(|d| d.v)
        .collect();
    assert_eq!(names, [StoreValue::Ref(1), StoreValue::Ref(3)]);
    // (e _ _)
    assert_eq!(store.search(Some(2), None, None).expect("e").len(), 4);
    // (_ a v)
    let hits = store
        .search(None, Some("age"), Some(&StoreValue::Long(22)))
        .expect("av");
    assert_eq!(
        hits,
        [Datom {
            e: 2,
            a: "age".into(),
            v: StoreValue::Long(22)
        }]
    );
    // (_ a _) sorted by value: 22 before 39
    let ages: Vec<u64> = store
        .search(None, Some("age"), None)
        .expect("a")
        .into_iter()
        .map(|d| d.e)
        .collect();
    assert_eq!(ages, [2, 1]);
    // (_ _ ref-v) via vae
    let back = store
        .search(None, None, Some(&StoreValue::Ref(1)))
        .expect("vae");
    assert_eq!(back.len(), 1);
    assert_eq!(back[0].e, 2);
    assert_eq!(back[0].a, "friend");
    // (_ _ _)
    assert_eq!(store.search(None, None, None).expect("all").len(), 7);
    // unknown attribute matches nothing
    assert!(store
        .search(None, Some("ghost"), None)
        .expect("none")
        .is_empty());
}

#[test]
fn cardinality_one_replaces_and_many_accumulates() {
    let mut store = open();
    store
        .set_attr(
            "alias",
            AttrProps {
                cardinality_many: true,
                ref_type: false,
            },
        )
        .expect("schema");

    store.transact(&[add(1, "name", s("Ivan"))]).expect("tx");
    store.transact(&[add(1, "name", s("Ivan II"))]).expect("tx");
    let names = store.search(Some(1), Some("name"), None).expect("names");
    assert_eq!(names.len(), 1, "cardinality-one must replace");
    assert_eq!(names[0].v, s("Ivan II"));
    // The old value is gone from ave too.
    assert!(store
        .search(None, Some("name"), Some(&s("Ivan")))
        .expect("ave")
        .is_empty());

    store
        .transact(&[add(1, "alias", s("vanya")), add(1, "alias", s("ivanushka"))])
        .expect("tx");
    assert_eq!(
        store
            .search(Some(1), Some("alias"), None)
            .expect("aliases")
            .len(),
        2
    );
}

#[test]
fn retract_removes_from_every_index() {
    let mut store = open();
    store
        .transact(&[add(1, "boss", StoreValue::Ref(2)), add(1, "name", s("x"))])
        .expect("tx");
    assert_eq!(
        store
            .search(None, None, Some(&StoreValue::Ref(2)))
            .expect("vae")
            .len(),
        1
    );
    store
        .transact(&[retract(1, "boss", StoreValue::Ref(2))])
        .expect("tx");
    assert!(store
        .search(Some(1), Some("boss"), None)
        .expect("eav")
        .is_empty());
    assert!(store
        .search(None, Some("boss"), None)
        .expect("ave")
        .is_empty());
    assert!(store
        .search(None, None, Some(&StoreValue::Ref(2)))
        .expect("vae")
        .is_empty());
    // Retracting an absent datom is a no-op.
    store
        .transact(&[retract(1, "boss", StoreValue::Ref(2))])
        .expect("tx");
}

#[test]
fn counts_and_samples_come_from_the_counted_indexes() {
    let mut store = open();
    let ops: Vec<Op> = (0..200_u64)
        .map(|i| add(i + 1, "score", StoreValue::Long((i % 50) as i64)))
        .collect();
    store.transact(&ops).expect("tx");

    assert_eq!(store.count(None, None, None).expect("all"), 200);
    assert_eq!(store.count(None, Some("score"), None).expect("attr"), 200);
    assert_eq!(
        store
            .count(None, Some("score"), Some(&StoreValue::Long(7)))
            .expect("av"),
        4
    );
    assert_eq!(store.count(Some(5), None, None).expect("e"), 1);
    assert_eq!(store.count(Some(5), Some("score"), None).expect("ea"), 1);
    assert_eq!(store.cardinality("score").expect("card"), 200);

    let sample = store.sample_ave("score", 10).expect("sample");
    assert_eq!(sample.len(), 10);
    // Samples arrive in value order and span the range.
    let values: Vec<i64> = sample
        .iter()
        .map(|d| match d.v {
            StoreValue::Long(n) => n,
            _ => panic!("unexpected type"),
        })
        .collect();
    let mut sorted = values.clone();
    sorted.sort_unstable();
    assert_eq!(values, sorted);
    assert!(values.first().expect("first") < values.last().expect("last"));

    assert_eq!(store.max_eid().expect("max"), 200);
}

#[test]
fn giant_values_roundtrip_and_match_exactly() {
    let mut store = open();
    let big_a = "a".repeat(5000) + "-suffix-one";
    let big_b = "a".repeat(5000) + "-suffix-two";
    store
        .transact(&[add(1, "doc", s(&big_a)), add(2, "doc", s(&big_b))])
        .expect("tx");

    let hit = store
        .search(None, Some("doc"), Some(&s(&big_a)))
        .expect("giant av");
    assert_eq!(hit.len(), 1);
    assert_eq!(hit[0].e, 1);
    assert_eq!(hit[0].v, s(&big_a));

    // A giant value never stored matches nothing (and allocates nothing).
    let never = "z".repeat(5000);
    assert!(store
        .search(None, Some("doc"), Some(&s(&never)))
        .expect("miss")
        .is_empty());

    // Both giants decode on full scans.
    let all = store.search(None, Some("doc"), None).expect("scan");
    assert_eq!(all.len(), 2);
    assert!(all.iter().any(|d| d.v == s(&big_b)));
}

#[test]
fn store_persists_across_reopen() {
    let image = {
        let mut store = open();
        store
            .set_attr(
                "tag",
                AttrProps {
                    cardinality_many: true,
                    ref_type: false,
                },
            )
            .expect("schema");
        store
            .transact(&[add(7, "tag", s("alpha")), add(7, "tag", s("beta"))])
            .expect("tx");
        store.image()
    };
    let mut store = Store::open(&image).expect("reopen");
    assert_eq!(
        store.attr_props("tag"),
        Some(AttrProps {
            cardinality_many: true,
            ref_type: false,
        }),
        "schema must survive reopen"
    );
    assert_eq!(
        store.search(Some(7), Some("tag"), None).expect("eav").len(),
        2
    );
    assert_eq!(store.max_eid().expect("max"), 7);
    // New assertions keep accumulating under the reloaded schema.
    store.transact(&[add(7, "tag", s("gamma"))]).expect("tx");
    assert_eq!(
        store.search(Some(7), Some("tag"), None).expect("eav").len(),
        3
    );
}

#[test]
fn mixed_value_types_sort_within_their_type() {
    let mut store = open();
    store
        .transact(&[
            add(1, "v", StoreValue::Long(-5)),
            add(2, "v", StoreValue::Long(3)),
            add(3, "v", StoreValue::Double((-0.5_f64).to_bits())),
            add(4, "v", StoreValue::Double(2.5_f64.to_bits())),
            add(5, "v", s("apple")),
            add(6, "v", s("banana")),
        ])
        .expect("tx");
    let order: Vec<u64> = store
        .search(None, Some("v"), None)
        .expect("scan")
        .into_iter()
        .map(|d| d.e)
        .collect();
    // Longs (-5 < 3), then doubles (-0.5 < 2.5), then strings.
    assert_eq!(order, [1, 2, 3, 4, 5, 6]);
}

#[test]
fn ref_typed_attrs_and_next_eid() {
    let mut store = open();
    store
        .set_attr(
            "boss",
            AttrProps {
                cardinality_many: false,
                ref_type: true,
            },
        )
        .expect("schema");
    store
        .transact(&[add(3, "boss", StoreValue::Ref(9)), add(7, "name", s("x"))])
        .expect("tx");
    assert!(store.attr_props("boss").expect("props").ref_type);
    let listed = store.attrs();
    assert!(listed.iter().any(|(n, p)| n == "boss" && p.ref_type));
    assert_eq!(store.next_eid(0).expect("next"), Some(3));
    assert_eq!(store.next_eid(3).expect("next"), Some(3));
    assert_eq!(store.next_eid(4).expect("next"), Some(7));
    assert_eq!(store.next_eid(8).expect("next"), None);
}

#[test]
fn adding_twice_is_adding_once() {
    let mut store = open();
    store.transact(&[add(1, "n", StoreValue::Long(1))]).expect("tx");
    store.transact(&[add(1, "n", StoreValue::Long(1))]).expect("tx");
    assert_eq!(store.count(None, None, None).expect("count"), 1);
}

#[test]
fn the_count_is_the_length_of_the_search() {
    let mut store = open();
    store
        .transact(&[
            add(1, "a", StoreValue::Long(1)),
            add(2, "a", StoreValue::Long(1)),
            add(2, "b", StoreValue::Ref(1)),
        ])
        .expect("tx");
    for e in [None, Some(1), Some(2), Some(9)] {
        for a in [None, Some("a"), Some("b"), Some("ghost")] {
            assert_eq!(
                store.count(e, a, None).expect("count"),
                store.search(e, a, None).expect("search").len() as u64
            );
        }
    }
}

#[test]
fn image_of_a_reopened_store_reads_the_same() {
    let mut store = open();
    store
        .transact(&[add(1, "doc", s(&"q".repeat(4000))), add(2, "doc", s("short"))])
        .expect("tx");
    let again = Store::open(&store.image()).expect("reopen");
    let before = store.search(None, None, None).expect("all");
    let after = again.search(None, None, None).expect("all");
    assert_eq!(before, after);
}

#[test]
fn a_second_add_replaces_the_first() {
    let mut store = open();
    store.transact(&[add(1, "name", s("Ivan")), add(2, "name", s("Petr"))]).expect("before");
    store.transact(&[add(1, "name", s("Oleg"))]).expect("first");
    store.transact(&[add(1, "name", s("Anna"))]).expect("second");
    let of_one = store.search(Some(1), Some("name"), None).expect("search");
    assert_eq!(of_one, vec![Datom { e: 1, a: "name".into(), v: s("Anna") }]);
    assert!(store.search(None, None, Some(&s("Oleg"))).expect("search").is_empty());
    assert!(store.search(None, Some("name"), Some(&s("Oleg"))).expect("search").is_empty());
    assert_eq!(store.search(Some(2), None, None).expect("search").len(), 1);
    store.transact(&[add(1, "boss", StoreValue::Ref(2))]).expect("ref");
    store.transact(&[add(1, "boss", StoreValue::Ref(3))]).expect("ref");
    assert!(store.search(None, None, Some(&StoreValue::Ref(2))).expect("search").is_empty());
    assert_eq!(store.search(None, None, Some(&StoreValue::Ref(3))).expect("search").len(), 1);
}

#[test]
fn the_largest_entity_outlives_its_datoms() {
    let mut store = open();
    assert_eq!(store.max_eid(), Ok(0));
    store.transact(&[add(7, "a", StoreValue::Long(1)), add(3, "a", StoreValue::Long(2))]).expect("add");
    assert_eq!(store.max_eid(), Ok(7));
    store.transact(&[retract(7, "a", StoreValue::Long(1))]).expect("retract");
    assert_eq!(store.max_eid(), Ok(7));
    let mut again = Store::open(&store.image()).expect("reopen");
    assert_eq!(again.max_eid(), Ok(7));
    let deep = StoreValue::Keyword("k".repeat(1000).into());
    assert!(again.transact(&[add(90, "a", StoreValue::Long(1)), add(91, "a", deep)]).is_err());
    assert_eq!(again.max_eid(), Ok(7));
    again.transact(&[retract(50, "a", StoreValue::Long(1)), add(8, "b", s("x"))]).expect("more");
    assert_eq!(again.max_eid(), Ok(8));
    assert!(again.has_room(1_000));
}

#[test]
fn long_values_keep_their_order_among_the_others() {
    let mut store = open();
    let long = "m".repeat(2000);
    let longer = format!("{}z", "m".repeat(2000));
    store
        .transact(&[
            add(1, "t", s(&longer)),
            add(2, "t", s("z")),
            add(3, "t", s(&long)),
            add(5, "t", s(&long)),
            add(4, "t", s("a")),
        ])
        .expect("transact");
    let found = store.search(None, Some("t"), None).expect("search");
    let order: Vec<u64> = found.iter().map(|d| d.e).collect();
    assert_eq!(order, vec![4, 2, 1, 3, 5]);
    assert_eq!(store.search(None, Some("t"), Some(&s(&long))).expect("search").len(), 2);
    assert!(store.search(None, Some("never"), None).expect("search").is_empty());
}
