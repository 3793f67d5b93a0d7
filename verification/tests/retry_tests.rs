use defradb::{Datastore, StoreError, StoreKind, Transaction, UnitOfWork};
use defradb::{run_with_retry, run_with_retry_counted};

fn k(s: &str) -> Vec<u8> {
    s.as_bytes().to_vec()
}

/// Writes one key, and on the first `conflicts` runs lets a rival
/// transaction commit the same key first, so that the coordinator's
/// commit conflicts on those attempts and would succeed afterwards.
struct ContendedWork {
    conflicts: u32,
    runs: u32,
}

impl UnitOfWork for ContendedWork {
    fn run(&mut self, ds: &mut Datastore, txn: &mut Transaction) -> Result<(), StoreError> {
        self.runs += 1;
        txn.put(&k("shared"), &k("mine"))?;
        if self.runs <= self.conflicts {
            let mut rival = ds.new_transaction(false);
            rival.put(&k("shared"), &k("rival"))?;
            rival.commit(ds)?;
        }
        Ok(())
    }
}

/// Always fails with the given non-conflict error.
struct FailingWork {
    error: StoreError,
    runs: u32,
}

impl UnitOfWork for FailingWork {
    fn run(&mut self, _ds: &mut Datastore, _txn: &mut Transaction) -> Result<(), StoreError> {
        self.runs += 1;
        Err(self.error)
    }
}

#[test]
fn conflict_free_work_commits_on_first_attempt() {
    let mut ds = Datastore::new(StoreKind::Memory { size: 0 }, 5);
    let mut work = ContendedWork { conflicts: 0, runs: 0 };
    let (r, attempts) = run_with_retry_counted(&mut ds, false, &mut work);
    assert!(r.is_ok());
    assert_eq!(attempts, 1);
    assert_eq!(work.runs, 1);
    let txn = ds.new_transaction(true);
    assert_eq!(txn.get(&k("shared")).unwrap().value, k("mine"));
}

#[test]
fn one_conflict_is_retried_within_bound() {
    let mut ds = Datastore::new(StoreKind::Memory { size: 0 }, 5);
    let mut work = ContendedWork { conflicts: 1, runs: 0 };
    let (r, attempts) = run_with_retry_counted(&mut ds, false, &mut work);
    assert!(r.is_ok());
    assert_eq!(attempts, 2);
    assert_eq!(work.runs, 2);
    let txn = ds.new_transaction(true);
    assert_eq!(txn.get(&k("shared")).unwrap().value, k("mine"));
}

#[test]
fn bound_of_two_stops_before_third_attempt() {
    let mut ds = Datastore::new(StoreKind::Memory { size: 0 }, 2);
    let mut work = ContendedWork { conflicts: 2, runs: 0 };
    let (r, attempts) = run_with_retry_counted(&mut ds, false, &mut work);
    assert_eq!(r.unwrap_err(), StoreError::TxnConflict);
    assert_eq!(attempts, 2);
    assert_eq!(work.runs, 2);
}

#[test]
fn bound_of_zero_makes_first_conflict_terminal() {
    let mut ds = Datastore::new(StoreKind::Memory { size: 0 }, 0);
    let mut work = ContendedWork { conflicts: 1, runs: 0 };
    let (r, attempts) = run_with_retry_counted(&mut ds, false, &mut work);
    assert_eq!(r.unwrap_err(), StoreError::TxnConflict);
    assert_eq!(attempts, 1);
    assert_eq!(work.runs, 1);
}

#[test]
fn non_conflict_error_aborts_without_retry() {
    let mut ds = Datastore::new(StoreKind::Memory { size: 0 }, 5);
    let mut work = FailingWork { error: StoreError::BackendIO, runs: 0 };
    let (r, attempts) = run_with_retry_counted(&mut ds, false, &mut work);
    assert_eq!(r.unwrap_err(), StoreError::BackendIO);
    assert_eq!(attempts, 1);
    assert_eq!(work.runs, 1);
}

#[test]
fn invalid_query_error_aborts_without_retry() {
    let mut ds = Datastore::new(StoreKind::Memory { size: 0 }, 5);
    let mut work = FailingWork { error: StoreError::InvalidQuery, runs: 0 };
    let (r, attempts) = run_with_retry_counted(&mut ds, false, &mut work);
    assert_eq!(r.unwrap_err(), StoreError::InvalidQuery);
    assert_eq!(attempts, 1);
}

#[test]
fn run_with_retry_returns_plain_result() {
    let mut ds = Datastore::new(StoreKind::Memory { size: 0 }, 2);
    let mut work = ContendedWork { conflicts: 2, runs: 0 };
    let (r, _attempts) = run_with_retry(&mut ds, false, &mut work);
    assert_eq!(r.unwrap_err(), StoreError::TxnConflict);
    assert_eq!(work.runs, 2);
}

/// Reads one key and records that it was absent.
struct ReadWork {
    saw: bool,
}

impl UnitOfWork for ReadWork {
    fn run(&mut self, _ds: &mut Datastore, txn: &mut Transaction) -> Result<(), StoreError> {
        self.saw = txn.has(&k("absent"))? == false;
        Ok(())
    }
}

#[test]
fn read_only_retry_runs_work_once() {
    let mut ds = Datastore::new(StoreKind::Memory { size: 0 }, 5);
    let mut work = ReadWork { saw: false };
    let (r, attempts) = run_with_retry_counted(&mut ds, true, &mut work);
    assert!(r.is_ok());
    assert_eq!(attempts, 1);
    assert!(work.saw);
}
