//! The capability surface any backend session must provide: reading,
//! writing, and range-iterating over keyed data.  Each trait carries the
//! transactional contract over its own spec functions, so a caller that
//! takes any backend through this surface keeps the verified guarantees;
//! `Transaction` implements them by its contracted inherent methods.

use vstd::prelude::*;

use crate::errors::StoreError;
use crate::kv::{kvs_matches_map, kvs_query, kvs_sorted, Entry, Query};
use crate::store::{Cursor, Transaction};

verus! {

/// Read capability: point lookups and existence checks against the
/// session's consistent view.
pub trait Read {
    /// What this reader observes: keys to values.
    spec fn read_view(&self) -> Map<Seq<u8>, Seq<u8>>;

    /// Whether the session still accepts operations.
    spec fn read_active(&self) -> bool;

    /// Reads the value of `key`.
    fn get(&self, key: &Vec<u8>) -> (r: Result<Entry, StoreError>)
        ensures
            !self.read_active() ==> r == Err::<Entry, StoreError>(StoreError::TransactionClosed),
            self.read_active() && self.read_view().contains_key(key@) ==> (r matches Ok(e)
                && e.key@ == key@ && e.value@ == self.read_view()[key@]),
            self.read_active() && !self.read_view().contains_key(key@) ==> r == Err::<
                Entry,
                StoreError,
            >(StoreError::NotFound),
    ;

    /// Tests whether `key` exists, without materializing its value.
    fn has(&self, key: &Vec<u8>) -> (r: Result<bool, StoreError>)
        ensures
            !self.read_active() ==> r == Err::<bool, StoreError>(StoreError::TransactionClosed),
            self.read_active() ==> r == Ok::<bool, StoreError>(
                self.read_view().contains_key(key@),
            ),
    ;
}

/// Write capability: inserts, overwrites, and removals, gated by the
/// session's read-only flag.
pub trait Write {
    /// What this writer observes and updates: keys to values.
    spec fn write_view(&self) -> Map<Seq<u8>, Seq<u8>>;

    /// Whether the session still accepts operations.
    spec fn write_active(&self) -> bool;

    /// Whether mutations are rejected.
    spec fn write_read_only(&self) -> bool;

    /// Inserts or overwrites `key` with `value`.
    fn put(&mut self, key: &Vec<u8>, value: &Vec<u8>) -> (r: Result<(), StoreError>)
        ensures
            !old(self).write_active() ==> (r == Err::<(), StoreError>(
                StoreError::TransactionClosed,
            ) && ({
                &&& final(self).write_view() == old(self).write_view()
                &&& final(self).write_active() == old(self).write_active()
                &&& final(self).write_read_only() == old(self).write_read_only()
            })),
            old(self).write_active() && old(self).write_read_only() ==> (r == Err::<
                (),
                StoreError,
            >(StoreError::ReadOnly) && ({
                &&& final(self).write_view() == old(self).write_view()
                &&& final(self).write_active() == old(self).write_active()
                &&& final(self).write_read_only() == old(self).write_read_only()
            })),
            old(self).write_active() && !old(self).write_read_only() ==> ({
                &&& r == Ok::<(), StoreError>(())
                &&& final(self).write_view() == old(self).write_view().insert(key@, value@)
                &&& final(self).write_active()
                &&& final(self).write_read_only() == old(self).write_read_only()
            }),
    ;

    /// Removes `key`; removing an absent key succeeds as a no-op.
    fn delete(&mut self, key: &Vec<u8>) -> (r: Result<(), StoreError>)
        ensures
            !old(self).write_active() ==> (r == Err::<(), StoreError>(
                StoreError::TransactionClosed,
            ) && ({
                &&& final(self).write_view() == old(self).write_view()
                &&& final(self).write_active() == old(self).write_active()
                &&& final(self).write_read_only() == old(self).write_read_only()
            })),
            old(self).write_active() && old(self).write_read_only() ==> (r == Err::<
                (),
                StoreError,
            >(StoreError::ReadOnly) && ({
                &&& final(self).write_view() == old(self).write_view()
                &&& final(self).write_active() == old(self).write_active()
                &&& final(self).write_read_only() == old(self).write_read_only()
            })),
            old(self).write_active() && !old(self).write_read_only() ==> ({
                &&& r == Ok::<(), StoreError>(())
                &&& final(self).write_view() == old(self).write_view().remove(key@)
                &&& final(self).write_active()
                &&& final(self).write_read_only() == old(self).write_read_only()
            }),
    ;
}

/// Full point-access capability.
pub trait Store: Read + Write {

}

/// Range-iteration capability: cursors over the session's view.
pub trait Iterable {
    /// What iteration observes: keys to values.
    spec fn iter_view(&self) -> Map<Seq<u8>, Seq<u8>>;

    /// The same view as (key, value) pairs in ascending key order.
    spec fn iter_ordered(&self) -> Seq<(Seq<u8>, Seq<u8>)>;

    /// Whether the session still accepts operations.
    spec fn iter_active(&self) -> bool;

    /// The issue number the session's cursors carry as their owner tag.
    spec fn iter_owner(&self) -> int;

    /// Opens a cursor over the entries matching `query`, fixed at
    /// creation time to the session's current view.
    fn get_iterator(&self, query: &Query) -> (r: Result<Cursor, StoreError>)
        ensures
            !self.iter_active() ==> r == Err::<Cursor, StoreError>(
                StoreError::TransactionClosed,
            ),
            self.iter_active() && !query.valid() ==> r == Err::<Cursor, StoreError>(
                StoreError::InvalidQuery,
            ),
            self.iter_active() && query.valid() ==> (r matches Ok(c) && ({
                &&& c.results() == kvs_query(
                    self.iter_ordered(),
                    query.start@,
                    query.end@,
                    query.descending,
                    query.limit,
                )
                &&& !c.is_closed()
                &&& c.position() == 0
                &&& c.owner_tag() == self.iter_owner()
            })),
            kvs_sorted(self.iter_ordered()),
            kvs_matches_map(self.iter_ordered(), self.iter_view()),
    ;
}

/// A transaction that can read, write, and iterate.
pub trait IterableTxn: Read + Write + Iterable {

}

/// A datastore whose point access comes with range iteration.
pub trait IterableDatastore: Store + Iterable {

}

impl Read for Transaction {
    open spec fn read_view(&self) -> Map<Seq<u8>, Seq<u8>> {
        self@
    }

    open spec fn read_active(&self) -> bool {
        self.is_active()
    }

    fn get(&self, key: &Vec<u8>) -> Result<Entry, StoreError> {
        Transaction::get(self, key)
    }

    fn has(&self, key: &Vec<u8>) -> Result<bool, StoreError> {
        Transaction::has(self, key)
    }
}

impl Write for Transaction {
    open spec fn write_view(&self) -> Map<Seq<u8>, Seq<u8>> {
        self@
    }

    open spec fn write_active(&self) -> bool {
        self.is_active()
    }

    open spec fn write_read_only(&self) -> bool {
        self.is_read_only()
    }

    fn put(&mut self, key: &Vec<u8>, value: &Vec<u8>) -> Result<(), StoreError> {
        Transaction::put(self, key, value)
    }

    fn delete(&mut self, key: &Vec<u8>) -> Result<(), StoreError> {
        Transaction::delete(self, key)
    }
}

impl Iterable for Transaction {
    open spec fn iter_view(&self) -> Map<Seq<u8>, Seq<u8>> {
        self@
    }

    open spec fn iter_ordered(&self) -> Seq<(Seq<u8>, Seq<u8>)> {
        self.ordered_view()
    }

    open spec fn iter_active(&self) -> bool {
        self.is_active()
    }

    open spec fn iter_owner(&self) -> int {
        self.owner_tag()
    }

    fn get_iterator(&self, query: &Query) -> Result<Cursor, StoreError> {
        Transaction::get_iterator(self, query)
    }
}

impl IterableTxn for Transaction {

}

} // verus!
