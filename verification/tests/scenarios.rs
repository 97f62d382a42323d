use rust_embedded_kv_store::wal::encode_transaction;
use rust_embedded_kv_store::{Db, Op};

fn fresh() -> Db {
    Db::new(Vec::new(), Vec::new()).expect("two empty logs open")
}

#[test]
fn single_set_then_get() {
    let mut db = fresh();
    let mut tx = db.begin_transaction();
    tx.set(b"foo", b"bar");
    tx.commit();
    assert_eq!(db.get(b"foo"), Some(b"bar".to_vec()));
    assert_eq!(db.get(b"missing"), None);
}

#[test]
fn overwrite_in_separate_transactions() {
    let mut db = fresh();
    let mut tx = db.begin_transaction();
    tx.set(b"foo", b"bar");
    tx.commit();
    let mut tx = db.begin_transaction();
    tx.set(b"foo", b"baz");
    tx.commit();
    assert_eq!(db.get(b"foo"), Some(b"baz".to_vec()));
}

#[test]
fn delete_removes_key() {
    let mut db = fresh();
    let mut tx = db.begin_transaction();
    tx.set(b"foo", b"bar");
    tx.commit();
    let mut tx = db.begin_transaction();
    tx.delete(b"foo");
    tx.commit();
    assert_eq!(db.get(b"foo"), None);
}

#[test]
fn atomic_multi_key() {
    let mut db = fresh();
    let mut tx = db.begin_transaction();
    tx.set(b"k2", b"v2");
    tx.set(b"k3", b"v3");
    tx.commit();
    assert_eq!(db.get(b"k2"), Some(b"v2".to_vec()));
    assert_eq!(db.get(b"k3"), Some(b"v3".to_vec()));
}

#[test]
fn reopen_rebuilds_index() {
    let mut db = fresh();
    let mut tx = db.begin_transaction();
    tx.set(b"k2", b"v2");
    tx.set(b"k3", b"v3");
    tx.commit();
    let data = db.data().to_vec();
    let wal = db.wal().to_vec();
    drop(db);
    let reopened = Db::new(data, wal).expect("a store at rest opens again");
    assert_eq!(reopened.get(b"k2"), Some(b"v2".to_vec()));
    assert_eq!(reopened.get(b"k3"), Some(b"v3".to_vec()));
}

#[test]
fn crash_after_wal_sync_replays_transaction() {
    let wal = encode_transaction(&vec![Op::Put(b"a".to_vec(), b"1".to_vec())]);
    assert_eq!(wal, vec![0, 1, 1, 0, 0, 0, 1, 0, 0, 0, b'a', b'1', 3]);
    let db = Db::new(Vec::new(), wal).expect("a whole transaction replays");
    assert_eq!(db.get(b"a"), Some(b"1".to_vec()));
    assert_eq!(db.wal().len(), 0);
}

#[test]
fn crash_mid_wal_drops_transaction() {
    let mut wal = encode_transaction(&vec![Op::Put(b"a".to_vec(), b"1".to_vec())]);
    wal.pop();
    let db = Db::new(Vec::new(), wal).expect("a torn transaction is no error");
    assert_eq!(db.get(b"a"), None);
    assert_eq!(db.wal().len(), 0);
    assert_eq!(db.data().len(), 0);
}

#[test]
fn last_write_wins_within_transaction() {
    let mut db = fresh();
    let mut tx = db.begin_transaction();
    tx.set(b"k", b"1");
    tx.set(b"k", b"2");
    tx.delete(b"k");
    tx.set(b"k", b"3");
    tx.commit();
    assert_eq!(db.get(b"k"), Some(b"3".to_vec()));
}
