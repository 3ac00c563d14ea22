use mini_bitcask::mvcc::KVEngine;
use mini_bitcask::mvcc::MVCC;

#[test]
fn snapshot_isolation_flow() {
    let eng = KVEngine::new();
    let mut mvcc = MVCC::new(eng);

    // A first transaction fills the store and commits.
    let tx0 = mvcc.begin_transaction();
    tx0.set(&mut mvcc, b"a", b"a1".to_vec());
    tx0.set(&mut mvcc, b"b", b"b1".to_vec());
    tx0.set(&mut mvcc, b"c", b"c1".to_vec());
    tx0.set(&mut mvcc, b"d", b"d1".to_vec());
    tx0.set(&mut mvcc, b"e", b"e1".to_vec());
    tx0.commit(&mut mvcc);

    // A second transaction rewrites two keys but does not commit yet.
    let tx1 = mvcc.begin_transaction();
    tx1.set(&mut mvcc, b"a", b"a2".to_vec());
    tx1.set(&mut mvcc, b"e", b"e2".to_vec());

    // It sees its own writes.
    assert_eq!(tx1.get(&mvcc, b"a"), Some(b"a2".to_vec()));
    assert_eq!(tx1.get(&mvcc, b"b"), Some(b"b1".to_vec()));
    assert_eq!(tx1.get(&mvcc, b"e"), Some(b"e2".to_vec()));

    // A third transaction starts while the second is active and deletes a
    // key of its own.
    let tx2 = mvcc.begin_transaction();
    tx2.delete(&mut mvcc, b"b");

    // It sees the committed state, not the active transaction's writes,
    // plus its own delete.
    assert_eq!(tx2.get(&mvcc, b"a"), Some(b"a1".to_vec()));
    assert_eq!(tx2.get(&mvcc, b"b"), None);
    assert_eq!(tx2.get(&mvcc, b"c"), Some(b"c1".to_vec()));
    assert_eq!(tx2.get(&mvcc, b"e"), Some(b"e1".to_vec()));

    // Even after the second transaction commits, the third keeps reading
    // its own snapshot.
    tx1.commit(&mut mvcc);
    assert_eq!(tx2.get(&mvcc, b"a"), Some(b"a1".to_vec()));
    assert_eq!(tx2.get(&mvcc, b"e"), Some(b"e1".to_vec()));

    // A transaction begun now sees the committed rewrite, but not the
    // still-uncommitted delete.
    let tx3 = mvcc.begin_transaction();
    assert_eq!(tx3.get(&mvcc, b"a"), Some(b"a2".to_vec()));
    assert_eq!(tx3.get(&mvcc, b"b"), Some(b"b1".to_vec()));
    assert_eq!(tx3.get(&mvcc, b"c"), Some(b"c1".to_vec()));
    assert_eq!(tx3.get(&mvcc, b"d"), Some(b"d1".to_vec()));
    assert_eq!(tx3.get(&mvcc, b"e"), Some(b"e2".to_vec()));
}

#[test]
fn rollback_erases_writes() {
    let eng = KVEngine::new();
    let mut mvcc = MVCC::new(eng);

    let tx_a = mvcc.begin_transaction();
    tx_a.set(&mut mvcc, b"x", b"first".to_vec());
    tx_a.commit(&mut mvcc);

    let tx_b = mvcc.begin_transaction();
    tx_b.set(&mut mvcc, b"x", b"second".to_vec());
    tx_b.set(&mut mvcc, b"y", b"only-mine".to_vec());
    assert_eq!(tx_b.get(&mvcc, b"x"), Some(b"second".to_vec()));
    tx_b.rollback(&mut mvcc);

    let tx_c = mvcc.begin_transaction();
    assert_eq!(tx_c.get(&mvcc, b"x"), Some(b"first".to_vec()));
    assert_eq!(tx_c.get(&mvcc, b"y"), None);
}

#[test]
fn delete_then_commit_hides_key() {
    let eng = KVEngine::new();
    let mut mvcc = MVCC::new(eng);

    let tx_a = mvcc.begin_transaction();
    tx_a.set(&mut mvcc, b"k", b"v".to_vec());
    tx_a.commit(&mut mvcc);

    let tx_b = mvcc.begin_transaction();
    tx_b.delete(&mut mvcc, b"k");
    tx_b.commit(&mut mvcc);

    let tx_c = mvcc.begin_transaction();
    assert_eq!(tx_c.get(&mvcc, b"k"), None);
}

#[test]
fn get_on_never_written_key() {
    let eng = KVEngine::new();
    let mut mvcc = MVCC::new(eng);
    let tx = mvcc.begin_transaction();
    assert_eq!(tx.get(&mvcc, b"nothing"), None);
}
