use defradb::{Datastore, Entry, Query, StoreError, StoreKind};

fn memory_store() -> Datastore {
    Datastore::new(StoreKind::Memory { size: 1024 * 1024 }, 5)
}

fn k(s: &str) -> Vec<u8> {
    s.as_bytes().to_vec()
}

fn commit_pairs(ds: &mut Datastore, pairs: &[(&str, &str)]) {
    let mut txn = ds.new_transaction(false);
    for (key, value) in pairs {
        txn.put(&k(key), &k(value)).unwrap();
    }
    txn.commit(ds).unwrap();
}

#[test]
fn put_then_get_returns_value() {
    let mut ds = memory_store();
    let mut txn = ds.new_transaction(false);
    txn.put(&k("alpha"), &k("one")).unwrap();
    let e = txn.get(&k("alpha")).unwrap();
    assert_eq!(e.key, k("alpha"));
    assert_eq!(e.value, k("one"));
}

#[test]
fn put_overwrites_value() {
    let mut ds = memory_store();
    let mut txn = ds.new_transaction(false);
    txn.put(&k("alpha"), &k("one")).unwrap();
    txn.put(&k("alpha"), &k("two")).unwrap();
    let e = txn.get(&k("alpha")).unwrap();
    assert_eq!(e.value, k("two"));
}

#[test]
fn get_missing_key_not_found() {
    let mut ds = memory_store();
    let txn = ds.new_transaction(false);
    assert_eq!(txn.get(&k("absent")).unwrap_err(), StoreError::NotFound);
}

#[test]
fn delete_nonexistent_succeeds_then_get_not_found() {
    let mut ds = memory_store();
    let mut txn = ds.new_transaction(false);
    txn.delete(&k("ghost")).unwrap();
    assert_eq!(txn.get(&k("ghost")).unwrap_err(), StoreError::NotFound);
    txn.commit(&mut ds).unwrap();
    let txn2 = ds.new_transaction(false);
    assert_eq!(txn2.get(&k("ghost")).unwrap_err(), StoreError::NotFound);
}

#[test]
fn delete_removes_committed_key() {
    let mut ds = memory_store();
    commit_pairs(&mut ds, &[("alpha", "one")]);
    let mut txn = ds.new_transaction(false);
    txn.delete(&k("alpha")).unwrap();
    assert_eq!(txn.get(&k("alpha")).unwrap_err(), StoreError::NotFound);
    txn.commit(&mut ds).unwrap();
    let txn2 = ds.new_transaction(false);
    assert!(!txn2.has(&k("alpha")).unwrap());
}

#[test]
fn has_reports_existence() {
    let mut ds = memory_store();
    commit_pairs(&mut ds, &[("alpha", "one")]);
    let txn = ds.new_transaction(false);
    assert!(txn.has(&k("alpha")).unwrap());
    assert!(!txn.has(&k("beta")).unwrap());
}

#[test]
fn read_only_transaction_rejects_writes() {
    let mut ds = memory_store();
    let mut txn = ds.new_transaction(true);
    assert_eq!(txn.put(&k("a"), &k("1")).unwrap_err(), StoreError::ReadOnly);
    assert_eq!(txn.delete(&k("a")).unwrap_err(), StoreError::ReadOnly);
}

#[test]
fn operations_after_commit_fail_closed() {
    let mut ds = memory_store();
    let mut txn = ds.new_transaction(false);
    txn.put(&k("a"), &k("1")).unwrap();
    txn.commit(&mut ds).unwrap();
    assert_eq!(txn.get(&k("a")).unwrap_err(), StoreError::TransactionClosed);
    assert_eq!(txn.put(&k("a"), &k("2")).unwrap_err(), StoreError::TransactionClosed);
    assert_eq!(txn.commit(&mut ds).unwrap_err(), StoreError::TransactionClosed);
}

#[test]
fn discard_abandons_writes() {
    let mut ds = memory_store();
    let mut txn = ds.new_transaction(false);
    txn.put(&k("a"), &k("1")).unwrap();
    txn.discard();
    assert_eq!(txn.get(&k("a")).unwrap_err(), StoreError::TransactionClosed);
    let txn2 = ds.new_transaction(false);
    assert_eq!(txn2.get(&k("a")).unwrap_err(), StoreError::NotFound);
    let _ = &mut ds;
}

#[test]
fn snapshot_isolation_hides_later_commits() {
    let mut ds = memory_store();
    let early = ds.new_transaction(false);
    commit_pairs(&mut ds, &[("alpha", "one")]);
    assert_eq!(early.get(&k("alpha")).unwrap_err(), StoreError::NotFound);
    let late = ds.new_transaction(false);
    assert_eq!(late.get(&k("alpha")).unwrap().value, k("one"));
}

#[test]
fn disjoint_writers_both_commit() {
    let mut ds = memory_store();
    let mut t1 = ds.new_transaction(false);
    let mut t2 = ds.new_transaction(false);
    t1.put(&k("alpha"), &k("1")).unwrap();
    t2.put(&k("beta"), &k("2")).unwrap();
    t1.commit(&mut ds).unwrap();
    t2.commit(&mut ds).unwrap();
    let txn = ds.new_transaction(false);
    assert_eq!(txn.get(&k("alpha")).unwrap().value, k("1"));
    assert_eq!(txn.get(&k("beta")).unwrap().value, k("2"));
}

#[test]
fn overlapping_writers_second_commit_conflicts() {
    let mut ds = memory_store();
    let mut t1 = ds.new_transaction(false);
    let mut t2 = ds.new_transaction(false);
    t1.put(&k("alpha"), &k("1")).unwrap();
    t2.put(&k("alpha"), &k("2")).unwrap();
    t1.commit(&mut ds).unwrap();
    assert_eq!(t2.commit(&mut ds).unwrap_err(), StoreError::TxnConflict);
    let txn = ds.new_transaction(false);
    assert_eq!(txn.get(&k("alpha")).unwrap().value, k("1"));
}

#[test]
fn delete_conflicts_with_overlapping_write() {
    let mut ds = memory_store();
    commit_pairs(&mut ds, &[("alpha", "one")]);
    let mut t1 = ds.new_transaction(false);
    let mut t2 = ds.new_transaction(false);
    t1.delete(&k("alpha")).unwrap();
    t2.put(&k("alpha"), &k("2")).unwrap();
    t1.commit(&mut ds).unwrap();
    assert_eq!(t2.commit(&mut ds).unwrap_err(), StoreError::TxnConflict);
    let txn = ds.new_transaction(false);
    assert!(!txn.has(&k("alpha")).unwrap());
}

fn query(start: &str, end: &str) -> Query {
    Query { start: k(start), end: k(end), descending: false, limit: None }
}

fn collect(ds: &mut Datastore, q: &Query) -> Vec<(Vec<u8>, Vec<u8>)> {
    let txn = ds.new_transaction(true);
    let mut cur = txn.get_iterator(q).unwrap();
    let mut out = Vec::new();
    while let Some(e) = cur.next(&txn).unwrap() {
        out.push((e.key, e.value));
    }
    cur.close().unwrap();
    out
}

#[test]
fn iterator_yields_half_open_range_in_order() {
    let mut ds = memory_store();
    commit_pairs(&mut ds, &[("a", "1"), ("b", "2"), ("c", "3"), ("d", "4")]);
    let got = collect(&mut ds, &query("a", "c"));
    assert_eq!(got, vec![(k("a"), k("1")), (k("b"), k("2"))]);
}

#[test]
fn iterator_empty_when_start_equals_end() {
    let mut ds = memory_store();
    commit_pairs(&mut ds, &[("a", "1"), ("b", "2"), ("c", "3"), ("d", "4")]);
    let got = collect(&mut ds, &query("a", "a"));
    assert!(got.is_empty());
}

#[test]
fn iterator_descending_reverses_order() {
    let mut ds = memory_store();
    commit_pairs(&mut ds, &[("a", "1"), ("b", "2"), ("c", "3")]);
    let q = Query { start: k("a"), end: k("z"), descending: true, limit: None };
    let got = collect(&mut ds, &q);
    assert_eq!(got, vec![(k("c"), k("3")), (k("b"), k("2")), (k("a"), k("1"))]);
}

#[test]
fn iterator_limit_truncates() {
    let mut ds = memory_store();
    commit_pairs(&mut ds, &[("a", "1"), ("b", "2"), ("c", "3")]);
    let q = Query { start: k("a"), end: k("z"), descending: false, limit: Some(2) };
    let got = collect(&mut ds, &q);
    assert_eq!(got, vec![(k("a"), k("1")), (k("b"), k("2"))]);
}

#[test]
fn iterator_sees_own_uncommitted_writes() {
    let mut ds = memory_store();
    let mut txn = ds.new_transaction(false);
    txn.put(&k("b"), &k("2")).unwrap();
    txn.put(&k("a"), &k("1")).unwrap();
    let mut cur = txn.get_iterator(&query("a", "z")).unwrap();
    let first = cur.next(&txn).unwrap().unwrap();
    assert_eq!(first.key, k("a"));
    let second = cur.next(&txn).unwrap().unwrap();
    assert_eq!(second.key, k("b"));
    assert!(cur.next(&txn).unwrap().is_none());
}

#[test]
fn iterator_snapshot_fixed_at_creation() {
    let mut ds = memory_store();
    let mut txn = ds.new_transaction(false);
    txn.put(&k("a"), &k("1")).unwrap();
    let mut cur = txn.get_iterator(&query("a", "z")).unwrap();
    txn.put(&k("b"), &k("2")).unwrap();
    assert_eq!(cur.next(&txn).unwrap().unwrap().key, k("a"));
    assert!(cur.next(&txn).unwrap().is_none());
}

#[test]
fn iterator_inverted_range_rejected() {
    let mut ds = memory_store();
    commit_pairs(&mut ds, &[("a", "1")]);
    let txn = ds.new_transaction(true);
    let q = Query { start: k("b"), end: k("a"), descending: false, limit: None };
    match txn.get_iterator(&q) {
        Err(e) => assert_eq!(e, StoreError::InvalidQuery),
        Ok(_) => panic!("inverted range was accepted"),
    }
}

#[test]
fn iterator_on_closed_transaction_rejected() {
    let mut ds = memory_store();
    let mut txn = ds.new_transaction(false);
    txn.discard();
    match txn.get_iterator(&query("a", "z")) {
        Err(e) => assert_eq!(e, StoreError::TransactionClosed),
        Ok(_) => panic!("closed transaction opened a cursor"),
    }
}

#[test]
fn cursor_close_twice_does_not_error() {
    let mut ds = memory_store();
    commit_pairs(&mut ds, &[("a", "1")]);
    let txn = ds.new_transaction(true);
    let mut cur = txn.get_iterator(&query("a", "z")).unwrap();
    cur.close().unwrap();
    cur.close().unwrap();
}

#[test]
fn cursor_after_transaction_discarded_fails_closed() {
    let mut ds = memory_store();
    commit_pairs(&mut ds, &[("a", "1")]);
    let mut txn = ds.new_transaction(false);
    let mut cur = txn.get_iterator(&query("a", "z")).unwrap();
    txn.discard();
    assert_eq!(cur.next(&txn).unwrap_err(), StoreError::TransactionClosed);
}

#[test]
fn cursor_after_close_fails_closed() {
    let mut ds = memory_store();
    commit_pairs(&mut ds, &[("a", "1")]);
    let txn = ds.new_transaction(true);
    let mut cur = txn.get_iterator(&query("a", "z")).unwrap();
    cur.close().unwrap();
    assert_eq!(cur.next(&txn).unwrap_err(), StoreError::TransactionClosed);
}

#[test]
fn entry_clone_copies_bytes() {
    let e = Entry { key: k("a"), value: k("1") };
    let c = e.clone();
    assert_eq!(c.key, e.key);
    assert_eq!(c.value, e.value);
}

#[test]
fn commit_against_foreign_datastore_is_backend_error() {
    let mut ds1 = memory_store();
    commit_pairs(&mut ds1, &[("a", "1")]);
    let mut txn = ds1.new_transaction(false);
    txn.put(&k("b"), &k("2")).unwrap();
    let mut ds2 = memory_store();
    assert_eq!(txn.commit(&mut ds2).unwrap_err(), StoreError::BackendIO);
}

#[test]
fn empty_key_is_a_valid_key() {
    let mut ds = memory_store();
    let mut txn = ds.new_transaction(false);
    txn.put(&Vec::new(), &k("root")).unwrap();
    assert_eq!(txn.get(&Vec::new()).unwrap().value, k("root"));
    txn.commit(&mut ds).unwrap();
    let got = collect(&mut ds, &query("", "z"));
    assert_eq!(got[0], (Vec::new(), k("root")));
}
