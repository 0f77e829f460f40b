//! The ordered key-value environment.

use cljrs::lmdb::{DbiFlags, Env, EnvFlags, Table};

fn open_env(image: &Vec<Table>) -> Env {
    Env::options()
        .map_size(64 << 20)
        .flags(EnvFlags::no_tls())
        .open(image)
        .expect("environment must open")
}

fn text(bytes: &[u8]) -> String {
    String::from_utf8(bytes.to_vec()).expect("utf8")
}

#[test]
fn put_get_delete_roundtrip_and_reopen_persistence() {
    let image = {
        let mut env = open_env(&vec![]);
        let dbi = env.open_dbi("kv", DbiFlags::create()).expect("dbi");
        let mut txn = env.write_txn().expect("write txn");
        txn.put(dbi, b"alpha", b"1").expect("put");
        txn.put(dbi, b"beta", b"2").expect("put");
        txn.commit().expect("commit");

        let ro = env.read_txn().expect("read txn");
        assert_eq!(ro.get(dbi, b"alpha").expect("get"), Some(&b"1"[..]));
        assert_eq!(ro.get(dbi, b"missing").expect("get"), None);
        drop(ro);

        let mut txn = env.write_txn().expect("write txn");
        assert!(txn.del(dbi, b"alpha", None).expect("del"));
        assert!(!txn.del(dbi, b"alpha", None).expect("del again"));
        txn.commit().expect("commit");
        env.image()
    };
    let mut env = open_env(&image);
    let dbi = env.open_dbi("kv", DbiFlags::create()).expect("dbi");
    let ro = env.read_txn().expect("read txn");
    assert_eq!(ro.get(dbi, b"beta").expect("get"), Some(&b"2"[..]));
    assert_eq!(ro.get(dbi, b"alpha").expect("get"), None);
}

#[test]
fn range_scans_are_sorted_and_bounded_inclusively() {
    let mut env = open_env(&vec![]);
    let dbi = env.open_dbi("sorted", DbiFlags::create()).expect("dbi");
    let mut txn = env.write_txn().expect("write txn");
    for key in ["b", "d", "a", "c", "e"] {
        txn.put(dbi, key.as_bytes(), b"x").expect("put");
    }
    txn.commit().expect("commit");

    let ro = env.read_txn().expect("read txn");
    let mut all: Vec<String> = Vec::new();
    let mut scan = ro.range(dbi, None, None).expect("range");
    while let Some(entry) = scan.next() {
        all.push(text(entry.0));
    }
    assert_eq!(all, ["a", "b", "c", "d", "e"]);

    let mut bounded: Vec<String> = Vec::new();
    let mut scan = ro.range(dbi, Some(b"b"), Some(b"d")).expect("range");
    while let Some(entry) = scan.next() {
        bounded.push(text(entry.0));
    }
    assert_eq!(bounded, ["b", "c", "d"]);
}

#[test]
fn dupsort_stores_sorted_duplicates_per_key() {
    let mut env = open_env(&vec![]);
    let dbi = env
        .open_dbi("dups", DbiFlags::create() | DbiFlags::dup_sort())
        .expect("dbi");
    let mut txn = env.write_txn().expect("write txn");
    for value in ["v2", "v1", "v3"] {
        txn.put(dbi, b"k", value.as_bytes()).expect("put");
    }
    txn.put(dbi, b"other", b"solo").expect("put");
    txn.commit().expect("commit");

    let ro = env.read_txn().expect("read txn");
    let mut cursor = ro.cursor(dbi).expect("cursor");
    let (key, first) = cursor.set(b"k").expect("set").expect("found");
    assert_eq!((key, first), (&b"k"[..], &b"v1"[..]));
    assert_eq!(cursor.dup_count().expect("count"), 3);
    assert_eq!(
        cursor.next_dup().expect("next").map(|e| e.1),
        Some(&b"v2"[..])
    );
    assert_eq!(
        cursor.next_dup().expect("next").map(|e| e.1),
        Some(&b"v3"[..])
    );
    assert_eq!(cursor.next_dup().expect("next"), None);

    drop(cursor);
    drop(ro);
    let mut txn = env.write_txn().expect("write txn");
    assert!(txn.del(dbi, b"k", Some(b"v2")).expect("del pair"));
    txn.commit().expect("commit");
    let ro = env.read_txn().expect("read txn");
    let mut cursor = ro.cursor(dbi).expect("cursor");
    cursor.set(b"k").expect("set").expect("found");
    assert_eq!(cursor.dup_count().expect("count"), 2);
}

#[test]
fn counted_databases_answer_counts_and_ranks_without_scans() {
    let mut env = open_env(&vec![]);
    let dbi = env
        .open_dbi("counted", DbiFlags::create() | DbiFlags::counted())
        .expect("dbi");
    let mut txn = env.write_txn().expect("write txn");
    for i in 0..100_u32 {
        txn.put(dbi, format!("key{i:03}").as_bytes(), b"v")
            .expect("put");
    }
    txn.commit().expect("commit");

    let ro = env.read_txn().expect("read txn");
    assert_eq!(ro.count_all(dbi).expect("count_all"), 100);
    assert_eq!(
        ro.count_range(dbi, Some(b"key010"), Some(b"key019"))
            .expect("count_range"),
        10
    );
    assert_eq!(
        ro.count_range(dbi, None, Some(b"key004"))
            .expect("open low"),
        5
    );

    let (key, _) = ro.get_rank(dbi, 42).expect("get_rank").expect("present");
    assert_eq!(key, b"key042");
    assert_eq!(ro.get_rank(dbi, 100).expect("get_rank"), None);

    assert_eq!(ro.key_rank(dbi, b"key042").expect("key_rank"), Some(42));
    assert_eq!(ro.key_rank(dbi, b"nope").expect("key_rank"), None);
}

#[test]
fn prefix_compressed_counted_dbi_roundtrips() {
    let mut env = open_env(&vec![]);
    let dbi = env
        .open_dbi(
            "prefixed",
            DbiFlags::create() | DbiFlags::counted() | DbiFlags::prefix_compression(),
        )
        .expect("dbi");
    let mut txn = env.write_txn().expect("write txn");
    for i in 0..500_u32 {
        let key = format!("shared/long/common/prefix/{i:05}");
        txn.put(dbi, key.as_bytes(), &i.to_be_bytes()).expect("put");
    }
    txn.commit().expect("commit");

    let ro = env.read_txn().expect("read txn");
    assert_eq!(ro.count_all(dbi).expect("count"), 500);
    assert_eq!(
        ro.get(dbi, b"shared/long/common/prefix/00250")
            .expect("get"),
        Some(&250_u32.to_be_bytes()[..])
    );
}

#[test]
fn readers_see_a_stable_snapshot_while_a_writer_commits() {
    let mut env = open_env(&vec![]);
    let dbi = env.open_dbi("snap", DbiFlags::create()).expect("dbi");
    let mut txn = env.write_txn().expect("write txn");
    txn.put(dbi, b"k", b"old").expect("put");
    txn.commit().expect("commit");

    let ro = env.read_txn().expect("read txn");
    let mut txn = env.write_txn().expect("write txn");
    txn.put(dbi, b"k", b"new").expect("put");
    txn.commit().expect("commit");

    assert_eq!(ro.get(dbi, b"k").expect("get"), Some(&b"old"[..]));
    let fresh = env.read_txn().expect("read txn");
    assert_eq!(fresh.get(dbi, b"k").expect("get"), Some(&b"new"[..]));
}

#[test]
fn abort_discards_writes() {
    let mut env = open_env(&vec![]);
    let dbi = env.open_dbi("abort", DbiFlags::create()).expect("dbi");
    let mut txn = env.write_txn().expect("write txn");
    txn.put(dbi, b"ghost", b"1").expect("put");
    txn.abort();
    let ro = env.read_txn().expect("read txn");
    assert_eq!(ro.get(dbi, b"ghost").expect("get"), None);
}

#[test]
fn a_missing_table_is_not_found() {
    let mut env = open_env(&vec![]);
    let err = env
        .open_dbi("absent", DbiFlags::empty())
        .expect_err("no table of that name");
    assert!(err.is_not_found());
    let err = env
        .open_dbi_read_only("absent")
        .expect_err("no table of that name");
    assert!(err.is_not_found());
}
