//! The datastore, its transactions, and their cursors.
//!
//! A `Datastore` owns the committed state of one backend instance: a list of
//! entries kept strictly sorted by key, and, for optimistic concurrency, the
//! commit version under which each key was last written.  A `Transaction`
//! carries a private snapshot of the committed entries plus the set of keys
//! it has written; at commit time those keys are checked against the
//! versions that other commits have published since the snapshot was taken.

use vstd::prelude::*;

use crate::errors::StoreError;
use crate::keys::{lex_le, lex_lt, lemma_lex_trichotomy, lemma_lex_trans, compare_keys, KeyOrder};
use crate::kv::{
    clone_bytes, entry_kvs, has_key, in_range, index_of, keys_distinct, keys_sorted, kv_map,
    kvs_matches_map, kvs_query, kvs_range, kvs_sorted, lemma_at_key, lemma_kvs_range_push,
    lemma_sorted_distinct, spec_min, value_of, Entry, Query,
};

verus! {

/// The last commit version of one key.
#[derive(Debug)]
struct VersionEntry {
    key: Vec<u8>,
    version: u64,
}

/// Some version record of `s` bears the key `k`.
spec fn v_has(s: Seq<VersionEntry>, k: Seq<u8>) -> bool {
    exists|i: int| 0 <= i < s.len() && s[i].key@ == k
}

/// The position of the version record bearing `k`.
spec fn v_index(s: Seq<VersionEntry>, k: Seq<u8>) -> int {
    choose|i: int| 0 <= i < s.len() && s[i].key@ == k
}

/// No two version records bear the same key.
spec fn v_distinct(s: Seq<VersionEntry>) -> bool {
    forall|i: int, j: int|
        0 <= i < j < s.len() ==> #[trigger] s[i].key@ != #[trigger] s[j].key@
}

/// The abstract content of a version list: the map from keys to versions.
spec fn v_map(s: Seq<VersionEntry>) -> Map<Seq<u8>, nat> {
    Map::new(|k: Seq<u8>| v_has(s, k), |k: Seq<u8>| s[v_index(s, k)].version as nat)
}

/// With distinct keys, the version record at `i` is the one `v_map` speaks of.
proof fn lemma_v_at_key(s: Seq<VersionEntry>, i: int)
    requires
        v_distinct(s),
        0 <= i < s.len(),
    ensures
        v_has(s, s[i].key@),
        v_index(s, s[i].key@) == i,
        v_map(s).contains_key(s[i].key@),
        v_map(s)[s[i].key@] == s[i].version as nat,
{
    assert(v_has(s, s[i].key@));
    let j = v_index(s, s[i].key@);
    if i != j {
        assert(false);
    }
}

/// The committed contents after a transaction's writes are applied: on the
/// written keys the transaction's view prevails, elsewhere the base.
pub open spec fn apply_writes(
    base: Map<Seq<u8>, Seq<u8>>,
    tv: Map<Seq<u8>, Seq<u8>>,
    ws: Set<Seq<u8>>,
) -> Map<Seq<u8>, Seq<u8>> {
    Map::new(
        |k: Seq<u8>| if ws.contains(k) { tv.contains_key(k) } else { base.contains_key(k) },
        |k: Seq<u8>| if ws.contains(k) { tv[k] } else { base[k] },
    )
}

/// The version map after a commit: every written key moves to version `v`.
pub open spec fn bump_versions(vers: Map<Seq<u8>, nat>, ws: Set<Seq<u8>>, v: nat) -> Map<
    Seq<u8>,
    nat,
> {
    Map::new(
        |k: Seq<u8>| vers.contains_key(k) || ws.contains(k),
        |k: Seq<u8>| if ws.contains(k) { v } else { vers[k] },
    )
}

/// An optimistic-commit conflict: some written key was re-versioned after
/// the snapshot was taken.
pub open spec fn write_conflict(vers: Map<Seq<u8>, nat>, snap: nat, ws: Set<Seq<u8>>) -> bool {
    exists|k: Seq<u8>| ws.contains(k) && vers.contains_key(k) && vers[k] > snap
}

/// Position of the first entry whose key is not below `key`.
fn lower_bound(v: &Vec<Entry>, key: &Vec<u8>) -> (r: usize)
    requires
        keys_sorted(v@),
    ensures
        r <= v@.len(),
        forall|j: int| 0 <= j < r ==> lex_lt(#[trigger] v@[j].key@, key@),
        forall|j: int| r <= j < v@.len() ==> lex_le(key@, #[trigger] v@[j].key@),
{
    let mut i: usize = 0;
    while i < v.len()
        invariant
            0 <= i <= v@.len(),
            keys_sorted(v@),
            forall|j: int| 0 <= j < i ==> lex_lt(#[trigger] v@[j].key@, key@),
        decreases v@.len() - i,
    {
        match compare_keys(&v[i].key, key) {
            KeyOrder::Less => {
                i = i + 1;
            },
            _ => {
                proof {
                    assert forall|j: int| i <= j < v@.len() implies lex_le(
                        key@,
                        #[trigger] v@[j].key@,
                    ) by {
                        lemma_lex_trichotomy(v@[i as int].key@, key@);
                        if j > i {
                            if key@ == v@[i as int].key@ {
                            } else {
                                lemma_lex_trans(key@, v@[i as int].key@, v@[j].key@);
                            }
                        }
                    }
                }
                return i;
            },
        }
    }
    i
}

/// Position of the entry bearing `key`, if one exists.
fn find_index(v: &Vec<Entry>, key: &Vec<u8>) -> (r: Option<usize>)
    ensures
        match r {
            Some(i) => i < v@.len() && v@[i as int].key@ == key@,
            None => !has_key(v@, key@),
        },
{
    let mut i: usize = 0;
    while i < v.len()
        invariant
            0 <= i <= v@.len(),
            forall|j: int| 0 <= j < i ==> #[trigger] v@[j].key@ != key@,
        decreases v@.len() - i,
    {
        match compare_keys(&v[i].key, key) {
            KeyOrder::Equal => {
                return Some(i);
            },
            _ => {
                i = i + 1;
            },
        }
    }
    None
}

/// Inserts or overwrites `key` in a key-sorted entry list.
fn upsert_sorted(v: &mut Vec<Entry>, key: &Vec<u8>, value: &Vec<u8>)
    requires
        keys_sorted(old(v)@),
    ensures
        keys_sorted(final(v)@),
        kv_map(final(v)@) == kv_map(old(v)@).insert(key@, value@),
{
    let ghost v0 = old(v)@;
    proof {
        lemma_sorted_distinct(v0);
    }
    let r = lower_bound(v, key);
    let e = Entry { key: clone_bytes(key), value: clone_bytes(value) };
    let mut replace = false;
    if r < v.len() {
        match compare_keys(&v[r].key, key) {
            KeyOrder::Equal => {
                replace = true;
            },
            _ => {},
        }
    }
    if replace {
        v.set(r, e);
        proof {
            let vn = v@;
            assert(forall|i: int| 0 <= i < vn.len() ==> #[trigger] vn[i].key@ == v0[i].key@);
            assert(keys_sorted(vn));
            lemma_sorted_distinct(vn);
            assert forall|k: Seq<u8>|
                #![all_triggers]
                true implies {
                &&& has_key(vn, k) == kv_map(v0).insert(key@, value@).contains_key(k)
                &&& (has_key(vn, k) ==> value_of(vn, k) == kv_map(v0).insert(key@, value@)[k])
            } by {
                if k == key@ {
                    lemma_at_key(vn, r as int);
                } else {
                    if has_key(vn, k) {
                        let i = index_of(vn, k);
                        lemma_at_key(vn, i);
                        lemma_at_key(v0, i);
                    }
                    if has_key(v0, k) {
                        let i = index_of(v0, k);
                        lemma_at_key(v0, i);
                        lemma_at_key(vn, i);
                    }
                }
            }
            assert(kv_map(v@) =~= kv_map(v0).insert(key@, value@));
        }
    } else {
        proof {
            // The key is absent: entries before `r` are strictly below it,
            // those from `r` on are strictly above it.
            assert forall|j: int| r <= j < v0.len() implies lex_lt(
                key@,
                #[trigger] v0[j].key@,
            ) by {
                lemma_lex_trichotomy(key@, v0[j].key@);
                if j > r {
                    lemma_lex_trichotomy(key@, v0[r as int].key@);
                    if key@ != v0[r as int].key@ {
                        lemma_lex_trans(key@, v0[r as int].key@, v0[j].key@);
                    }
                }
            }
            assert forall|j: int| 0 <= j < v0.len() implies #[trigger] v0[j].key@ != key@ by {
                if j < r {
                    lemma_lex_trichotomy(v0[j].key@, key@);
                } else {
                    lemma_lex_trichotomy(key@, v0[j].key@);
                }
            }
        }
        v.insert(r, e);
        proof {
            let vn = v@;
            assert(vn == v0.insert(r as int, e));
            assert(forall|i: int| 0 <= i < r ==> #[trigger] vn[i].key@ == v0[i].key@);
            assert(vn[r as int].key@ == key@);
            assert(forall|i: int|
                r < i < vn.len() ==> #[trigger] vn[i].key@ == v0[i - 1].key@);
            assert forall|i: int, j: int| 0 <= i < j < vn.len() implies lex_lt(
                #[trigger] vn[i].key@,
                #[trigger] vn[j].key@,
            ) by {
                if i == r {
                    assert(vn[j].key@ == v0[j - 1].key@);
                } else if j == r {
                    assert(vn[i].key@ == v0[i].key@);
                }
            }
            lemma_sorted_distinct(vn);
            assert forall|k: Seq<u8>|
                #![all_triggers]
                true implies {
                &&& has_key(vn, k) == kv_map(v0).insert(key@, value@).contains_key(k)
                &&& (has_key(vn, k) ==> value_of(vn, k) == kv_map(v0).insert(key@, value@)[k])
            } by {
                if k == key@ {
                    lemma_at_key(vn, r as int);
                } else {
                    if has_key(vn, k) {
                        let i = index_of(vn, k);
                        lemma_at_key(vn, i);
                        if i < r {
                            lemma_at_key(v0, i);
                        } else {
                            lemma_at_key(v0, i - 1);
                        }
                    }
                    if has_key(v0, k) {
                        let i = index_of(v0, k);
                        lemma_at_key(v0, i);
                        if i < r {
                            lemma_at_key(vn, i);
                        } else {
                            lemma_at_key(vn, i + 1);
                        }
                    }
                }
            }
            assert(kv_map(v@) =~= kv_map(v0).insert(key@, value@));
        }
    }
}

/// Removes `key` from a key-sorted entry list; absent keys are a no-op.
fn remove_sorted(v: &mut Vec<Entry>, key: &Vec<u8>)
    requires
        keys_sorted(old(v)@),
    ensures
        keys_sorted(final(v)@),
        kv_map(final(v)@) == kv_map(old(v)@).remove(key@),
{
    let ghost v0 = old(v)@;
    proof {
        lemma_sorted_distinct(v0);
    }
    match find_index(v, key) {
        Some(i) => {
            v.remove(i);
            proof {
                let vn = v@;
                assert(vn == v0.remove(i as int));
                assert(forall|j: int| 0 <= j < i ==> #[trigger] vn[j].key@ == v0[j].key@);
                assert(forall|j: int|
                    i <= j < vn.len() ==> #[trigger] vn[j].key@ == v0[j + 1].key@);
                assert(keys_sorted(vn));
                lemma_sorted_distinct(vn);
                assert forall|k: Seq<u8>|
                    #![all_triggers]
                    true implies {
                    &&& has_key(vn, k) == kv_map(v0).remove(key@).contains_key(k)
                    &&& (has_key(vn, k) ==> value_of(vn, k) == kv_map(v0).remove(key@)[k])
                } by {
                    lemma_at_key(v0, i as int);
                    if k == key@ {
                        if has_key(vn, k) {
                            let j = index_of(vn, k);
                            lemma_at_key(vn, j);
                            if j < i {
                                lemma_at_key(v0, j);
                            } else {
                                lemma_at_key(v0, j + 1);
                            }
                        }
                    } else {
                        if has_key(vn, k) {
                            let j = index_of(vn, k);
                            lemma_at_key(vn, j);
                            if j < i {
                                lemma_at_key(v0, j);
                            } else {
                                lemma_at_key(v0, j + 1);
                            }
                        }
                        if has_key(v0, k) {
                            let j = index_of(v0, k);
                            lemma_at_key(v0, j);
                            if j < i {
                                lemma_at_key(vn, j);
                            } else {
                                lemma_at_key(vn, j - 1);
                            }
                        }
                    }
                }
                assert(kv_map(v@) =~= kv_map(v0).remove(key@));
            }
        },
        None => {
            proof {
                assert(!kv_map(v0).contains_key(key@));
                assert(kv_map(v@) =~= kv_map(v0).remove(key@));
            }
        },
    }
}

/// Inserts or overwrites the version record of `key`.
fn version_upsert(v: &mut Vec<VersionEntry>, key: &Vec<u8>, ver: u64)
    requires
        v_distinct(old(v)@),
    ensures
        v_distinct(final(v)@),
        v_map(final(v)@) == v_map(old(v)@).insert(key@, ver as nat),
{
    let ghost v0 = old(v)@;
    let mut i: usize = 0;
    while i < v.len()
        invariant
            0 <= i <= v@.len(),
            v@ == v0,
            v0 == old(v)@,
            v_distinct(v0),
            forall|j: int| 0 <= j < i ==> #[trigger] v0[j].key@ != key@,
        decreases v@.len() - i,
    {
        match compare_keys(&v[i].key, key) {
            KeyOrder::Equal => {
                v.set(i, VersionEntry { key: clone_bytes(key), version: ver });
                proof {
                    let vn = v@;
                    assert(forall|j: int|
                        0 <= j < vn.len() ==> #[trigger] vn[j].key@ == v0[j].key@);
                    assert(v_distinct(vn));
                    assert forall|k: Seq<u8>|
                        #![all_triggers]
                        true implies {
                        &&& v_has(vn, k) == v_map(v0).insert(key@, ver as nat).contains_key(k)
                        &&& (v_has(vn, k) ==> v_map(vn)[k] == v_map(v0).insert(
                            key@,
                            ver as nat,
                        )[k])
                    } by {
                        if k == key@ {
                            lemma_v_at_key(vn, i as int);
                        } else {
                            if v_has(vn, k) {
                                let j = v_index(vn, k);
                                lemma_v_at_key(vn, j);
                                lemma_v_at_key(v0, j);
                            }
                            if v_has(v0, k) {
                                let j = v_index(v0, k);
                                lemma_v_at_key(v0, j);
                                lemma_v_at_key(vn, j);
                            }
                        }
                    }
                    assert(v_map(v@) =~= v_map(v0).insert(key@, ver as nat));
                }
                return ;
            },
            _ => {
                i = i + 1;
            },
        }
    }
    v.push(VersionEntry { key: clone_bytes(key), version: ver });
    proof {
        let vn = v@;
        assert(vn == v0.push(VersionEntry { key: vn.last().key, version: ver }));
        assert(forall|j: int| 0 <= j < v0.len() ==> #[trigger] vn[j].key@ == v0[j].key@);
        assert(vn.last().key@ == key@);
        assert(forall|j: int| 0 <= j < v0.len() ==> #[trigger] v0[j].key@ != key@);
        assert(v_distinct(vn));
        assert forall|k: Seq<u8>|
            #![all_triggers]
            true implies {
            &&& v_has(vn, k) == v_map(v0).insert(key@, ver as nat).contains_key(k)
            &&& (v_has(vn, k) ==> v_map(vn)[k] == v_map(v0).insert(key@, ver as nat)[k])
        } by {
            if k == key@ {
                lemma_v_at_key(vn, vn.len() - 1);
            } else {
                if v_has(vn, k) {
                    let j = v_index(vn, k);
                    lemma_v_at_key(vn, j);
                    lemma_v_at_key(v0, j);
                }
                if v_has(v0, k) {
                    let j = v_index(v0, k);
                    lemma_v_at_key(v0, j);
                    lemma_v_at_key(vn, j);
                }
            }
        }
        assert(v_map(v@) =~= v_map(v0).insert(key@, ver as nat));
    }
}


/// Looks up the last commit version of `key`.
fn version_lookup(v: &Vec<VersionEntry>, key: &Vec<u8>) -> (r: Option<u64>)
    requires
        v_distinct(v@),
    ensures
        match r {
            Some(ver) => v_map(v@).contains_key(key@) && v_map(v@)[key@] == ver as nat,
            None => !v_map(v@).contains_key(key@),
        },
{
    let mut i: usize = 0;
    while i < v.len()
        invariant
            0 <= i <= v@.len(),
            v_distinct(v@),
            forall|j: int| 0 <= j < i ==> #[trigger] v@[j].key@ != key@,
        decreases v@.len() - i,
    {
        match compare_keys(&v[i].key, key) {
            KeyOrder::Equal => {
                proof {
                    lemma_v_at_key(v@, i as int);
                }
                return Some(v[i].version);
            },
            _ => {
                i = i + 1;
            },
        }
    }
    proof {
        assert(!v_has(v@, key@));
    }
    None
}

/// A transaction can reach a commit decision against `ds`: its snapshot
/// belongs to this datastore's history and the commit counter has room.
pub open spec fn commit_admissible(t: Transaction, ds: Datastore) -> bool {
    t.snapshot() <= ds.commit_counter() && ds.commit_counter() < u64::MAX as nat
}

/// Which physical backend a datastore was opened with, and its sizing.
#[derive(Debug, Clone, PartialEq, Eq)]
pub enum StoreKind {
    /// The in-memory backend, with its capacity hint in bytes.
    Memory { size: u64 },
    /// The on-disk log-structured backend, with its root directory and
    /// value-log segment size in bytes.
    Badger { path: String, value_log_file_size: u64 },
}

/// The lifecycle state of a transaction.
#[derive(Clone, Copy, Debug, PartialEq, Eq, Structural)]
pub enum TxnState {
    Active,
    Committed,
    Discarded,
    Conflicted,
}

/// The long-lived handle to one backend instance: the sole factory for
/// transactions, owner of the committed entries and of the per-key commit
/// versions that optimistic conflict detection consults.
pub struct Datastore {
    kind: StoreKind,
    retries: u32,
    entries: Vec<Entry>,
    versions: Vec<VersionEntry>,
    counter: u64,
    txn_tag: Ghost<int>,
}

impl View for Datastore {
    type V = Map<Seq<u8>, Seq<u8>>;

    /// The committed contents: the map from keys to values.
    closed spec fn view(&self) -> Map<Seq<u8>, Seq<u8>> {
        kv_map(self.entries@)
    }
}

/// A bounded-lifetime session against one datastore: a consistent snapshot
/// of the committed contents, a read-only or read-write capability fixed at
/// creation, and the set of keys written so far.
pub struct Transaction {
    read_only: bool,
    state: TxnState,
    snapshot_version: u64,
    current: Vec<Entry>,
    write_keys: Vec<Vec<u8>>,
    tag: Ghost<int>,
}

impl View for Transaction {
    type V = Map<Seq<u8>, Seq<u8>>;

    /// What this transaction observes: its snapshot overlaid with its own
    /// writes.
    closed spec fn view(&self) -> Map<Seq<u8>, Seq<u8>> {
        kv_map(self.current@)
    }
}

/// The keys written (put or deleted) by the first `n` recorded writes.
spec fn prefix_write_set(wk: Seq<Vec<u8>>, n: int) -> Set<Seq<u8>> {
    Set::new(|k: Seq<u8>| exists|j: int| 0 <= j < n && wk[j]@ == k)
}

/// Recording one more write extends the write set by that key.
proof fn lemma_write_set_push(wk: Seq<Vec<u8>>, key: Vec<u8>)
    ensures
        prefix_write_set(wk.push(key), wk.len() as int + 1) == prefix_write_set(
            wk,
            wk.len() as int,
        ).insert(key@),
{
    let a = prefix_write_set(wk.push(key), wk.len() as int + 1);
    let b = prefix_write_set(wk, wk.len() as int).insert(key@);
    assert forall|x: Seq<u8>| a.contains(x) implies b.contains(x) by {
        let j = choose|j: int| 0 <= j < wk.len() + 1 && wk.push(key)[j]@ == x;
        if j == wk.len() {
            assert(wk.push(key)[j] == key);
        } else {
            assert(wk.push(key)[j] == wk[j]);
        }
    }
    assert forall|x: Seq<u8>| b.contains(x) implies a.contains(x) by {
        if x == key@ {
            assert(wk.push(key)[wk.len() as int]@ == x);
        } else {
            let j = choose|j: int| 0 <= j < wk.len() && wk[j]@ == x;
            assert(wk.push(key)[j]@ == x);
        }
    }
    assert(a =~= b);
}

impl Datastore {
    #[verifier::type_invariant]
    spec fn wf(self) -> bool {
        &&& keys_sorted(self.entries@)
        &&& v_distinct(self.versions@)
        &&& forall|k: Seq<u8>|
            #[trigger] v_map(self.versions@).contains_key(k) ==> 1 <= v_map(self.versions@)[k]
                <= self.counter
    }

    /// The last commit version of each key ever written.
    pub closed spec fn versions_map(&self) -> Map<Seq<u8>, nat> {
        v_map(self.versions@)
    }

    /// How many commits this datastore has linearized.
    pub closed spec fn commit_counter(&self) -> nat {
        self.counter as nat
    }

    /// The backend this datastore was opened with.
    pub closed spec fn store_kind(&self) -> StoreKind {
        self.kind
    }

    /// The retry bound the retry coordinator works under.
    pub closed spec fn max_txn_retries(&self) -> u32 {
        self.retries
    }

    /// How many transactions this datastore has issued; each carries its
    /// issue number as its owner tag.
    pub closed spec fn tag_counter(&self) -> int {
        self.txn_tag@
    }

    /// Creates an empty datastore over the given backend.
    pub fn new(kind: StoreKind, max_txn_retries: u32) -> (ds: Datastore)
        ensures
            ds@ == Map::<Seq<u8>, Seq<u8>>::empty(),
            ds.versions_map() == Map::<Seq<u8>, nat>::empty(),
            ds.commit_counter() == 0,
            ds.store_kind() == kind,
            ds.max_txn_retries() == max_txn_retries,
    {
        let ds = Datastore {
            kind,
            retries: max_txn_retries,
            entries: Vec::new(),
            versions: Vec::new(),
            counter: 0,
            txn_tag: Ghost(0),
        };
        proof {
            assert(ds@ =~= Map::<Seq<u8>, Seq<u8>>::empty());
            assert(ds.versions_map() =~= Map::<Seq<u8>, nat>::empty());
        }
        ds
    }

    /// The configured retry bound, as a value.
    pub fn retry_bound(&self) -> (r: u32)
        ensures
            r == self.max_txn_retries(),
    {
        self.retries
    }

    /// Opens a transaction over the current committed snapshot, tagged
    /// with a fresh issue number.
    pub fn new_transaction(&mut self, read_only: bool) -> (t: Transaction)
        ensures
            t@ == old(self)@,
            t.write_set() == Set::<Seq<u8>>::empty(),
            t.snapshot() == old(self).commit_counter(),
            t.is_read_only() == read_only,
            t.txn_state() is Active,
            t.owner_tag() == final(self).tag_counter(),
            final(self).tag_counter() == old(self).tag_counter() + 1,
            final(self)@ == old(self)@,
            final(self).versions_map() == old(self).versions_map(),
            final(self).commit_counter() == old(self).commit_counter(),
            final(self).store_kind() == old(self).store_kind(),
            final(self).max_txn_retries() == old(self).max_txn_retries(),
    {
        proof {
            use_type_invariant(&*self);
            lemma_sorted_distinct(self.entries@);
        }
        self.txn_tag = Ghost(self.txn_tag@ + 1);
        let mut cur: Vec<Entry> = Vec::new();
        let mut i: usize = 0;
        while i < self.entries.len()
            invariant
                0 <= i <= self.entries@.len(),
                keys_sorted(self.entries@),
                keys_distinct(self.entries@),
                cur@.len() == i,
                forall|t: int|
                    0 <= t < i ==> #[trigger] cur@[t].key@ == self.entries@[t].key@
                        && cur@[t].value@ == self.entries@[t].value@,
            decreases self.entries@.len() - i,
        {
            cur.push(self.entries[i].clone());
            proof {
                assert(cur@[i as int].key@ == self.entries@[i as int].key@);
                assert(cur@[i as int].value@ == self.entries@[i as int].value@);
            }
            i = i + 1;
        }
        proof {
            assert(keys_sorted(cur@));
            lemma_sorted_distinct(cur@);
            assert forall|k: Seq<u8>|
                #![all_triggers]
                true implies {
                &&& has_key(cur@, k) == has_key(self.entries@, k)
                &&& (has_key(cur@, k) ==> value_of(cur@, k) == value_of(self.entries@, k))
            } by {
                if has_key(cur@, k) {
                    let t = index_of(cur@, k);
                    lemma_at_key(cur@, t);
                    lemma_at_key(self.entries@, t);
                }
                if has_key(self.entries@, k) {
                    let t = index_of(self.entries@, k);
                    lemma_at_key(self.entries@, t);
                    lemma_at_key(cur@, t);
                }
            }
            assert(kv_map(cur@) =~= kv_map(self.entries@));
        }
        let t = Transaction {
            read_only,
            state: TxnState::Active,
            snapshot_version: self.counter,
            current: cur,
            write_keys: Vec::new(),
            tag: Ghost(self.txn_tag@),
        };
        proof {
            assert(t.write_set() =~= Set::<Seq<u8>>::empty());
        }
        t
    }
}

impl Transaction {
    #[verifier::type_invariant]
    spec fn wf(self) -> bool {
        keys_sorted(self.current@)
    }

    /// The set of keys this transaction has written (put or deleted).
    pub closed spec fn write_set(&self) -> Set<Seq<u8>> {
        prefix_write_set(self.write_keys@, self.write_keys@.len() as int)
    }

    /// The commit count the snapshot was taken at.
    pub closed spec fn snapshot(&self) -> nat {
        self.snapshot_version as nat
    }

    /// The lifecycle state.
    pub closed spec fn txn_state(&self) -> TxnState {
        self.state
    }

    /// Whether mutations are rejected.
    pub closed spec fn is_read_only(&self) -> bool {
        self.read_only
    }

    /// The issue number this transaction was created under; the cursors
    /// it opens carry the same tag.
    pub closed spec fn owner_tag(&self) -> int {
        self.tag@
    }

    /// A transaction accepts operations only while active.
    pub open spec fn is_active(&self) -> bool {
        self.txn_state() is Active
    }

    /// Reads the value of `key` as observed by this transaction.
    pub fn get(&self, key: &Vec<u8>) -> (r: Result<Entry, StoreError>)
        ensures
            !self.is_active() ==> r == Err::<Entry, StoreError>(StoreError::TransactionClosed),
            self.is_active() && self@.contains_key(key@) ==> (r matches Ok(e) && e.key@ == key@
                && e.value@ == self@[key@]),
            self.is_active() && !self@.contains_key(key@) ==> r == Err::<Entry, StoreError>(
                StoreError::NotFound,
            ),
    {
        proof {
            use_type_invariant(self);
            lemma_sorted_distinct(self.current@);
        }
        match self.state {
            TxnState::Active => {},
            _ => {
                return Err(StoreError::TransactionClosed);
            },
        }
        match find_index(&self.current, key) {
            Some(i) => {
                proof {
                    lemma_at_key(self.current@, i as int);
                }
                Ok(self.current[i].clone())
            },
            None => Err(StoreError::NotFound),
        }
    }

    /// Tests whether `key` exists, without materializing its value.
    pub fn has(&self, key: &Vec<u8>) -> (r: Result<bool, StoreError>)
        ensures
            !self.is_active() ==> r == Err::<bool, StoreError>(StoreError::TransactionClosed),
            self.is_active() ==> r == Ok::<bool, StoreError>(self@.contains_key(key@)),
    {
        proof {
            use_type_invariant(self);
            lemma_sorted_distinct(self.current@);
        }
        match self.state {
            TxnState::Active => {},
            _ => {
                return Err(StoreError::TransactionClosed);
            },
        }
        match find_index(&self.current, key) {
            Some(i) => {
                proof {
                    lemma_at_key(self.current@, i as int);
                }
                Ok(true)
            },
            None => Ok(false),
        }
    }

    /// Inserts or overwrites `key` with `value`.
    pub fn put(&mut self, key: &Vec<u8>, value: &Vec<u8>) -> (r: Result<(), StoreError>)
        ensures
            !old(self).is_active() ==> r == Err::<(), StoreError>(StoreError::TransactionClosed)
                && *final(self) == *old(self),
            old(self).is_active() && old(self).is_read_only() ==> r == Err::<(), StoreError>(
                StoreError::ReadOnly,
            ) && *final(self) == *old(self),
            old(self).is_active() && !old(self).is_read_only() ==> ({
                &&& r == Ok::<(), StoreError>(())
                &&& final(self)@ == old(self)@.insert(key@, value@)
                &&& final(self).write_set() == old(self).write_set().insert(key@)
                &&& final(self).snapshot() == old(self).snapshot()
                &&& final(self).is_read_only() == old(self).is_read_only()
                &&& final(self).owner_tag() == old(self).owner_tag()
                &&& final(self).txn_state() is Active
            }),
    {
        proof {
            use_type_invariant(&*self);
        }
        match self.state {
            TxnState::Active => {},
            _ => {
                return Err(StoreError::TransactionClosed);
            },
        }
        if self.read_only {
            return Err(StoreError::ReadOnly);
        }
        let ghost t0 = *self;
        let mut cur: Vec<Entry> = Vec::new();
        core::mem::swap(&mut cur, &mut self.current);
        upsert_sorted(&mut cur, key, value);
        core::mem::swap(&mut cur, &mut self.current);
        let mut wk: Vec<Vec<u8>> = Vec::new();
        core::mem::swap(&mut wk, &mut self.write_keys);
        wk.push(clone_bytes(key));
        core::mem::swap(&mut wk, &mut self.write_keys);
        proof {
            assert(self.write_keys@ == t0.write_keys@.push(self.write_keys@.last()));
            assert(self.write_keys@.last()@ == key@);
            lemma_write_set_push(t0.write_keys@, self.write_keys@.last());
        }
        Ok(())
    }

    /// Removes `key`; removing an absent key succeeds as a no-op.
    pub fn delete(&mut self, key: &Vec<u8>) -> (r: Result<(), StoreError>)
        ensures
            !old(self).is_active() ==> r == Err::<(), StoreError>(StoreError::TransactionClosed)
                && *final(self) == *old(self),
            old(self).is_active() && old(self).is_read_only() ==> r == Err::<(), StoreError>(
                StoreError::ReadOnly,
            ) && *final(self) == *old(self),
            old(self).is_active() && !old(self).is_read_only() ==> ({
                &&& r == Ok::<(), StoreError>(())
                &&& final(self)@ == old(self)@.remove(key@)
                &&& final(self).write_set() == old(self).write_set().insert(key@)
                &&& final(self).snapshot() == old(self).snapshot()
                &&& final(self).is_read_only() == old(self).is_read_only()
                &&& final(self).owner_tag() == old(self).owner_tag()
                &&& final(self).txn_state() is Active
            }),
    {
        proof {
            use_type_invariant(&*self);
        }
        match self.state {
            TxnState::Active => {},
            _ => {
                return Err(StoreError::TransactionClosed);
            },
        }
        if self.read_only {
            return Err(StoreError::ReadOnly);
        }
        let ghost t0 = *self;
        let mut cur: Vec<Entry> = Vec::new();
        core::mem::swap(&mut cur, &mut self.current);
        remove_sorted(&mut cur, key);
        core::mem::swap(&mut cur, &mut self.current);
        let mut wk: Vec<Vec<u8>> = Vec::new();
        core::mem::swap(&mut wk, &mut self.write_keys);
        wk.push(clone_bytes(key));
        core::mem::swap(&mut wk, &mut self.write_keys);
        proof {
            assert(self.write_keys@ == t0.write_keys@.push(self.write_keys@.last()));
            assert(self.write_keys@.last()@ == key@);
            lemma_write_set_push(t0.write_keys@, self.write_keys@.last());
        }
        Ok(())
    }

    /// Attempts to commit.  Succeeds, publishing this transaction's writes
    /// as one new commit version, unless some written key was re-versioned
    /// after this snapshot was taken, in which case nothing is applied and
    /// the transaction ends `Conflicted`.
    pub fn commit(&mut self, ds: &mut Datastore) -> (r: Result<(), StoreError>)
        ensures
            !old(self).is_active() ==> (r == Err::<(), StoreError>(StoreError::TransactionClosed)
                && *final(self) == *old(self) && *final(ds) == *old(ds)),
            old(self).is_active() && !commit_admissible(*old(self), *old(ds)) ==> (r == Err::<
                (),
                StoreError,
            >(StoreError::BackendIO) && *final(self) == *old(self) && *final(ds) == *old(ds)),
            old(self).is_active() && commit_admissible(*old(self), *old(ds)) && write_conflict(
                old(ds).versions_map(),
                old(self).snapshot(),
                old(self).write_set(),
            ) ==> ({
                &&& r == Err::<(), StoreError>(StoreError::TxnConflict)
                &&& *final(ds) == *old(ds)
                &&& final(self).txn_state() is Conflicted
                &&& final(self)@ == old(self)@
                &&& final(self).write_set() == old(self).write_set()
                &&& final(self).snapshot() == old(self).snapshot()
                &&& final(self).is_read_only() == old(self).is_read_only()
                &&& final(self).owner_tag() == old(self).owner_tag()
            }),
            old(self).is_active() && commit_admissible(*old(self), *old(ds)) && !write_conflict(
                old(ds).versions_map(),
                old(self).snapshot(),
                old(self).write_set(),
            ) ==> ({
                &&& r == Ok::<(), StoreError>(())
                &&& final(self).txn_state() is Committed
                &&& final(self)@ == old(self)@
                &&& final(self).write_set() == old(self).write_set()
                &&& final(self).snapshot() == old(self).snapshot()
                &&& final(self).is_read_only() == old(self).is_read_only()
                &&& final(self).owner_tag() == old(self).owner_tag()
                &&& final(ds).tag_counter() == old(ds).tag_counter()
                &&& final(ds)@ == apply_writes(old(ds)@, old(self)@, old(self).write_set())
                &&& final(ds).versions_map() == bump_versions(
                    old(ds).versions_map(),
                    old(self).write_set(),
                    old(ds).commit_counter() + 1,
                )
                &&& final(ds).commit_counter() == old(ds).commit_counter() + 1
                &&& final(ds).store_kind() == old(ds).store_kind()
                &&& final(ds).max_txn_retries() == old(ds).max_txn_retries()
            }),
    {
        proof {
            use_type_invariant(&*self);
            use_type_invariant(&*ds);
            lemma_sorted_distinct(self.current@);
        }
        match self.state {
            TxnState::Active => {},
            _ => {
                return Err(StoreError::TransactionClosed);
            },
        }
        if self.snapshot_version > ds.counter || ds.counter == u64::MAX {
            return Err(StoreError::BackendIO);
        }
        let ghost t0 = *self;
        let ghost ds0 = *ds;
        let mut conflict = false;
        let mut i: usize = 0;
        while i < self.write_keys.len()
            invariant
                0 <= i <= self.write_keys@.len(),
                v_distinct(ds.versions@),
                !conflict ==> forall|j: int|
                    0 <= j < i ==> !(v_map(ds.versions@).contains_key(
                        #[trigger] self.write_keys@[j]@,
                    ) && v_map(ds.versions@)[self.write_keys@[j]@]
                        > self.snapshot_version as nat),
                conflict ==> exists|j: int|
                    0 <= j < i && v_map(ds.versions@).contains_key(
                        #[trigger] self.write_keys@[j]@,
                    ) && v_map(ds.versions@)[self.write_keys@[j]@] > self.snapshot_version as nat,
            decreases self.write_keys@.len() - i,
        {
            match version_lookup(&ds.versions, &self.write_keys[i]) {
                Some(ver) => {
                    if ver > self.snapshot_version {
                        conflict = true;
                    }
                },
                None => {},
            }
            i = i + 1;
        }
        proof {
            if conflict {
                let j = choose|j: int|
                    0 <= j < self.write_keys@.len() && v_map(ds.versions@).contains_key(
                        self.write_keys@[j]@,
                    ) && v_map(ds.versions@)[self.write_keys@[j]@] > self.snapshot_version as nat;
                assert(self.write_set().contains(self.write_keys@[j]@));
                assert(write_conflict(ds.versions_map(), self.snapshot(), self.write_set()));
            } else {
                assert forall|k: Seq<u8>| self.write_set().contains(k) implies !(
                ds.versions_map().contains_key(k) && ds.versions_map()[k] > self.snapshot()) by {
                    let j = choose|j: int|
                        0 <= j < self.write_keys@.len() && self.write_keys@[j]@ == k;
                    assert(!(v_map(ds.versions@).contains_key(self.write_keys@[j]@) && v_map(
                        ds.versions@,
                    )[self.write_keys@[j]@] > self.snapshot_version as nat));
                }
                assert(!write_conflict(ds.versions_map(), self.snapshot(), self.write_set()));
            }
        }
        if conflict {
            self.state = TxnState::Conflicted;
            return Err(StoreError::TxnConflict);
        }
        ds.counter = ds.counter + 1;
        let newver = ds.counter;
        let mut entries: Vec<Entry> = Vec::new();
        core::mem::swap(&mut entries, &mut ds.entries);
        let mut versions: Vec<VersionEntry> = Vec::new();
        core::mem::swap(&mut versions, &mut ds.versions);
        proof {
            assert(kv_map(entries@) =~= apply_writes(
                kv_map(ds0.entries@),
                kv_map(t0.current@),
                prefix_write_set(t0.write_keys@, 0),
            ));
            assert(v_map(versions@) =~= bump_versions(
                v_map(ds0.versions@),
                prefix_write_set(t0.write_keys@, 0),
                newver as nat,
            ));
        }
        let mut n: usize = 0;
        while n < self.write_keys.len()
            invariant
                0 <= n <= self.write_keys@.len(),
                self.write_keys@ == t0.write_keys@,
                self.current@ == t0.current@,
                keys_sorted(t0.current@),
                keys_distinct(t0.current@),
                keys_sorted(entries@),
                v_distinct(versions@),
                kv_map(entries@) == apply_writes(
                    kv_map(ds0.entries@),
                    kv_map(t0.current@),
                    prefix_write_set(t0.write_keys@, n as int),
                ),
                v_map(versions@) == bump_versions(
                    v_map(ds0.versions@),
                    prefix_write_set(t0.write_keys@, n as int),
                    newver as nat,
                ),
            decreases self.write_keys@.len() - n,
        {
            let ghost pws = prefix_write_set(t0.write_keys@, n as int);
            let ghost pws1 = prefix_write_set(t0.write_keys@, n as int + 1);
            let wk = &self.write_keys[n];
            proof {
                assert forall|x: Seq<u8>| pws1.contains(x) implies pws.insert(wk@).contains(
                    x,
                ) by {
                    let j = choose|j: int| 0 <= j < n + 1 && t0.write_keys@[j]@ == x;
                    if j == n {
                    } else {
                        assert(pws.contains(x));
                    }
                }
                assert forall|x: Seq<u8>| pws.insert(wk@).contains(x) implies pws1.contains(
                    x,
                ) by {
                    if x == wk@ {
                        assert(t0.write_keys@[n as int]@ == x);
                    } else {
                        let j = choose|j: int| 0 <= j < n && t0.write_keys@[j]@ == x;
                        assert(t0.write_keys@[j]@ == x);
                    }
                }
                assert(pws1 =~= pws.insert(wk@));
            }
            match find_index(&self.current, wk) {
                Some(j) => {
                    proof {
                        lemma_at_key(t0.current@, j as int);
                    }
                    upsert_sorted(&mut entries, wk, &self.current[j].value);
                    proof {
                        assert(kv_map(entries@) =~= apply_writes(
                            kv_map(ds0.entries@),
                            kv_map(t0.current@),
                            pws1,
                        ));
                    }
                },
                None => {
                    remove_sorted(&mut entries, wk);
                    proof {
                        assert(!kv_map(t0.current@).contains_key(wk@));
                        assert(kv_map(entries@) =~= apply_writes(
                            kv_map(ds0.entries@),
                            kv_map(t0.current@),
                            pws1,
                        ));
                    }
                },
            }
            version_upsert(&mut versions, wk, newver);
            proof {
                assert(v_map(versions@) =~= bump_versions(
                    v_map(ds0.versions@),
                    pws1,
                    newver as nat,
                ));
            }
            n = n + 1;
        }
        proof {
            assert(prefix_write_set(t0.write_keys@, t0.write_keys@.len() as int)
                == t0.write_set());
            assert forall|k: Seq<u8>| v_map(versions@).contains_key(k) implies 1 <= v_map(
                versions@,
            )[k] <= ds.counter by {
                if !t0.write_set().contains(k) {
                    assert(v_map(ds0.versions@).contains_key(k));
                }
            }
        }
        core::mem::swap(&mut entries, &mut ds.entries);
        core::mem::swap(&mut versions, &mut ds.versions);
        self.state = TxnState::Committed;
        Ok(())
    }

    /// The snapshot this transaction observes, as (key, value) pairs in
    /// ascending key order.
    pub closed spec fn ordered_view(&self) -> Seq<(Seq<u8>, Seq<u8>)> {
        entry_kvs(self.current@)
    }

    /// Opens a cursor over the entries matching `query`, fixed at creation
    /// time to this transaction's current view.
    pub fn get_iterator(&self, query: &Query) -> (r: Result<Cursor, StoreError>)
        ensures
            !self.is_active() ==> r == Err::<Cursor, StoreError>(StoreError::TransactionClosed),
            self.is_active() && !query.valid() ==> r == Err::<Cursor, StoreError>(
                StoreError::InvalidQuery,
            ),
            self.is_active() && query.valid() ==> (r matches Ok(c) && ({
                &&& c.results() == kvs_query(
                    self.ordered_view(),
                    query.start@,
                    query.end@,
                    query.descending,
                    query.limit,
                )
                &&& !c.is_closed()
                &&& c.position() == 0
                &&& c.owner_tag() == self.owner_tag()
            })),
            kvs_sorted(self.ordered_view()),
            kvs_matches_map(self.ordered_view(), self@),
    {
        proof {
            use_type_invariant(self);
            lemma_sorted_distinct(self.current@);
            let ov = entry_kvs(self.current@);
            assert(kvs_sorted(ov));
            assert forall|t: int|
                0 <= t < ov.len() implies self@.contains_key(#[trigger] ov[t].0) && self@[ov[t].0]
                == ov[t].1 by {
                lemma_at_key(self.current@, t);
            }
            assert forall|k: Seq<u8>| self@.contains_key(k) implies exists|t: int|
                0 <= t < ov.len() && #[trigger] ov[t].0 == k by {
                let i = index_of(self.current@, k);
                assert(ov[i].0 == k);
            }
            assert(kvs_matches_map(ov, self@));
        }
        match self.state {
            TxnState::Active => {},
            _ => {
                return Err(StoreError::TransactionClosed);
            },
        }
        match compare_keys(&query.end, &query.start) {
            KeyOrder::Less => {
                proof {
                    lemma_lex_trichotomy(query.start@, query.end@);
                }
                return Err(StoreError::InvalidQuery);
            },
            _ => {
                proof {
                    lemma_lex_trichotomy(query.end@, query.start@);
                }
            },
        }
        let mut out: Vec<Entry> = Vec::new();
        let mut i: usize = 0;
        while i < self.current.len()
            invariant
                0 <= i <= self.current@.len(),
                entry_kvs(out@) == kvs_range(
                    entry_kvs(self.current@).take(i as int),
                    query.start@,
                    query.end@,
                ),
            decreases self.current@.len() - i,
        {
            let ghost pre = entry_kvs(self.current@).take(i as int);
            let e = &self.current[i];
            let sc = compare_keys(&query.start, &e.key);
            let ec = compare_keys(&e.key, &query.end);
            let start_ok = match sc {
                KeyOrder::Greater => false,
                _ => true,
            };
            let end_ok = match ec {
                KeyOrder::Less => true,
                _ => false,
            };
            let matched = start_ok && end_ok;
            proof {
                lemma_lex_trichotomy(query.start@, e.key@);
                assert(matched == in_range(query.start@, query.end@, e.key@));
                assert(entry_kvs(self.current@).take(i as int + 1) =~= pre.push(
                    (e.key@, e.value@),
                ));
                lemma_kvs_range_push(pre, query.start@, query.end@, (e.key@, e.value@));
            }
            if matched {
                out.push(e.clone());
                proof {
                    assert(entry_kvs(out@) =~= kvs_range(pre, query.start@, query.end@) + seq![
                        (e.key@, e.value@),
                    ]);
                    assert(entry_kvs(out@) =~= kvs_range(
                        entry_kvs(self.current@).take(i as int + 1),
                        query.start@,
                        query.end@,
                    ));
                }
            } else {
                proof {
                    assert(kvs_range(pre, query.start@, query.end@) + Seq::<
                        (Seq<u8>, Seq<u8>),
                    >::empty() =~= kvs_range(pre, query.start@, query.end@));
                    assert(entry_kvs(out@) =~= kvs_range(
                        entry_kvs(self.current@).take(i as int + 1),
                        query.start@,
                        query.end@,
                    ));
                }
            }
            i = i + 1;
        }
        proof {
            assert(entry_kvs(self.current@).take(self.current@.len() as int) =~= entry_kvs(
                self.current@,
            ));
        }
        let mut selected: Vec<Entry> = out;
        if query.descending {
            let ghost fwd = entry_kvs(selected@);
            let mut rev: Vec<Entry> = Vec::new();
            let mut j: usize = selected.len();
            while j > 0
                invariant
                    0 <= j <= selected@.len(),
                    rev@.len() == selected@.len() - j,
                    forall|t: int|
                        0 <= t < rev@.len() ==> (#[trigger] rev@[t].key@) == selected@[selected@.len()
                            - 1 - t].key@ && rev@[t].value@ == selected@[selected@.len() - 1
                            - t].value@,
                decreases j,
            {
                j = j - 1;
                rev.push(selected[j].clone());
            }
            proof {
                assert(entry_kvs(rev@) =~= entry_kvs(selected@).reverse());
            }
            selected = rev;
        }
        match query.limit {
            Some(l) => {
                let ghost full = entry_kvs(selected@);
                if selected.len() > l {
                    selected.truncate(l);
                    proof {
                        assert(entry_kvs(selected@) =~= full.take(
                            spec_min(l as int, full.len() as int),
                        ));
                    }
                } else {
                    proof {
                        assert(entry_kvs(selected@) =~= full.take(
                            spec_min(l as int, full.len() as int),
                        ));
                    }
                }
            },
            None => {},
        }
        Ok(Cursor { entries: selected, pos: 0, closed: false, owner: Ghost(self.tag@) })
    }

    /// Abandons all writes; always succeeds, and is terminal.
    pub fn discard(&mut self)
        ensures
            old(self).is_active() ==> final(self).txn_state() is Discarded,
            !old(self).is_active() ==> *final(self) == *old(self),
            final(self)@ == old(self)@,
            final(self).write_set() == old(self).write_set(),
            final(self).snapshot() == old(self).snapshot(),
            final(self).is_read_only() == old(self).is_read_only(),
            final(self).owner_tag() == old(self).owner_tag(),
    {
        proof {
            use_type_invariant(&*self);
        }
        match self.state {
            TxnState::Active => {
                self.state = TxnState::Discarded;
            },
            _ => {},
        }
    }
}

/// A stateful, position-tracking handle over the result of one query,
/// bound to the transaction that created it.  Its view is fixed at
/// creation; it is consumed by `next` and released by `close`.
pub struct Cursor {
    entries: Vec<Entry>,
    pos: usize,
    closed: bool,
    owner: Ghost<int>,
}

impl Cursor {
    #[verifier::type_invariant]
    spec fn wf(self) -> bool {
        self.pos <= self.entries@.len()
    }

    /// The (key, value) pairs this cursor yields, in order.
    pub closed spec fn results(&self) -> Seq<(Seq<u8>, Seq<u8>)> {
        entry_kvs(self.entries@)
    }

    /// How many entries have been consumed.
    pub closed spec fn position(&self) -> nat {
        self.pos as nat
    }

    /// Whether the cursor's resources were released.
    pub closed spec fn is_closed(&self) -> bool {
        self.closed
    }

    /// The issue number of the transaction this cursor belongs to.
    pub closed spec fn owner_tag(&self) -> int {
        self.owner@
    }

    /// Yields the next entry, or `None` when the results are exhausted.
    /// A cursor belongs to the transaction that created it, so `txn` must
    /// be that transaction; once its session has ended (or the cursor was
    /// closed), the cursor fails with `TransactionClosed`.
    pub fn next(&mut self, txn: &Transaction) -> (r: Result<Option<Entry>, StoreError>)
        requires
            old(self).owner_tag() == txn.owner_tag(),
        ensures
            !txn.is_active() ==> (r == Err::<Option<Entry>, StoreError>(
                StoreError::TransactionClosed,
            ) && *final(self) == *old(self)),
            txn.is_active() && old(self).is_closed() ==> (r == Err::<Option<Entry>, StoreError>(
                StoreError::TransactionClosed,
            ) && *final(self) == *old(self)),
            txn.is_active() && !old(self).is_closed() && old(self).position() < old(
                self,
            ).results().len() ==> (r matches Ok(Some(e)) && ({
                &&& e.key@ == old(self).results()[old(self).position() as int].0
                &&& e.value@ == old(self).results()[old(self).position() as int].1
                &&& final(self).position() == old(self).position() + 1
                &&& final(self).results() == old(self).results()
                &&& !final(self).is_closed()
                &&& final(self).owner_tag() == old(self).owner_tag()
            })),
            txn.is_active() && !old(self).is_closed() && old(self).position() >= old(
                self,
            ).results().len() ==> (r == Ok::<Option<Entry>, StoreError>(None) && *final(self)
                == *old(self)),
    {
        proof {
            use_type_invariant(&*self);
        }
        match txn.state {
            TxnState::Active => {},
            _ => {
                return Err(StoreError::TransactionClosed);
            },
        }
        if self.closed {
            return Err(StoreError::TransactionClosed);
        }
        if self.pos < self.entries.len() {
            let e = self.entries[self.pos].clone();
            self.pos = self.pos + 1;
            Ok(Some(e))
        } else {
            Ok(None)
        }
    }

    /// Releases the cursor's resources; safe to call any number of times.
    pub fn close(&mut self) -> (r: Result<(), StoreError>)
        ensures
            r == Ok::<(), StoreError>(()),
            final(self).is_closed(),
            final(self).results() == old(self).results(),
            final(self).position() == old(self).position(),
            final(self).owner_tag() == old(self).owner_tag(),
    {
        proof {
            use_type_invariant(&*self);
        }
        self.closed = true;
        Ok(())
    }
}

} // verus!
