//! The retry coordinator: re-runs a caller-supplied unit of work against a
//! fresh transaction while its commit keeps conflicting, up to the bound
//! the datastore was configured with.

use vstd::prelude::*;

use crate::errors::StoreError;
use crate::store::{Datastore, Transaction};

verus! {

/// A caller-supplied unit of work, run against a fresh transaction on each
/// attempt.  It must be free of side effects outside the transaction: on a
/// retry it is re-run from scratch and nothing of a failed attempt carries
/// over.  The datastore handle is passed through so that the work may open
/// auxiliary transactions of its own.
pub trait UnitOfWork {
    /// Performs the work against `txn`.
    fn run(&mut self, ds: &mut Datastore, txn: &mut Transaction) -> Result<(), StoreError>;
}

/// How many attempts the coordinator makes in all for a given retry bound:
/// always at least one, and never more than the bound.
pub open spec fn total_attempts(max_txn_retries: u32) -> nat {
    if max_txn_retries == 0 {
        1nat
    } else {
        max_txn_retries as nat
    }
}

/// Runs `work` under the retry coordinator and reports how many attempts
/// were made.  Each attempt opens a fresh transaction, runs the work, and
/// tries to commit; a `TxnConflict` consumes an attempt and is retried
/// while attempts remain, any other error aborts at once, and a terminal
/// conflict is surfaced only once every attempt has conflicted.
pub fn run_with_retry_counted<W: UnitOfWork>(ds: &mut Datastore, read_only: bool, work: &mut W) -> (r:
    (Result<(), StoreError>, u32))
    ensures
        1 <= r.1 <= total_attempts(old(ds).max_txn_retries()),
        r.0 == Err::<(), StoreError>(StoreError::TxnConflict) ==> r.1 == total_attempts(
            old(ds).max_txn_retries(),
        ),
{
    let bound = ds.retry_bound();
    let total: u32 = if bound == 0 {
        1
    } else {
        bound
    };
    let mut attempts: u32 = 0;
    loop
        invariant
            attempts < total,
            total == total_attempts(old(ds).max_txn_retries()),
        decreases total - attempts,
    {
        let mut txn = ds.new_transaction(read_only);
        let outcome: Result<(), StoreError> = match work.run(ds, &mut txn) {
            Ok(()) => txn.commit(ds),
            Err(e) => {
                txn.discard();
                Err(e)
            },
        };
        attempts = attempts + 1;
        match outcome {
            Ok(()) => {
                return (Ok(()), attempts);
            },
            Err(StoreError::TxnConflict) => {
                if attempts == total {
                    return (Err(StoreError::TxnConflict), attempts);
                }
            },
            Err(e) => {
                return (Err(e), attempts);
            },
        }
    }
}

/// Runs `work` under the retry coordinator.  The attempt bound comes from
/// the datastore's configured `max_txn_retries`; the ghost count carries
/// how many attempts were made, so that a terminal conflict is provably
/// surfaced only once the bound is exhausted.
pub fn run_with_retry<W: UnitOfWork>(ds: &mut Datastore, read_only: bool, work: &mut W) -> (r: (
    Result<(), StoreError>,
    Ghost<u32>,
))
    ensures
        1 <= r.1@ <= total_attempts(old(ds).max_txn_retries()),
        r.0 == Err::<(), StoreError>(StoreError::TxnConflict) ==> r.1@ as nat == total_attempts(
            old(ds).max_txn_retries(),
        ),
{
    let (r, attempts) = run_with_retry_counted(ds, read_only, work);
    (r, Ghost(attempts))
}

} // verus!
