//! Laws of the transactional contract, stated over the models that the
//! operations' own contracts use.

use vstd::prelude::*;

use crate::keys::{lex_lt, lemma_lex_trichotomy};
use crate::kv::{in_range, kvs_range, kvs_sorted};
use crate::store::{apply_writes, bump_versions, write_conflict};

verus! {

/// Write-own-read visibility: a put of `(k, v)` makes the transaction's
/// view hold `v` under `k`, so a get of `k` within the same transaction
/// returns `v`.
pub proof fn lemma_write_own_read(m: Map<Seq<u8>, Seq<u8>>, k: Seq<u8>, v: Seq<u8>)
    ensures
        m.insert(k, v).contains_key(k),
        m.insert(k, v)[k] == v,
{
}

/// A delete hides the key whether or not it existed: after a delete of
/// `k` the view lacks `k`, so a following get of `k` reports it absent.
pub proof fn lemma_delete_then_absent(m: Map<Seq<u8>, Seq<u8>>, k: Seq<u8>)
    ensures
        !m.remove(k).contains_key(k),
{
}

/// Concurrent transactions with disjoint write sets both commit: opened
/// at commit count `c` over versions bounded by `c`, the first conflicts
/// with nothing; after its commit publishes version `c + 1` on its own
/// keys, the second still conflicts with nothing; and the contents after
/// both commits reflect both transactions' writes.
pub proof fn lemma_disjoint_writers_both_commit(
    base: Map<Seq<u8>, Seq<u8>>,
    vers: Map<Seq<u8>, nat>,
    c: nat,
    tv1: Map<Seq<u8>, Seq<u8>>,
    ws1: Set<Seq<u8>>,
    snap1: nat,
    tv2: Map<Seq<u8>, Seq<u8>>,
    ws2: Set<Seq<u8>>,
    snap2: nat,
)
    requires
        forall|k: Seq<u8>| #[trigger] vers.contains_key(k) ==> vers[k] <= c,
        c <= snap1,
        c <= snap2,
        ws1.disjoint(ws2),
    ensures
        !write_conflict(vers, snap1, ws1),
        !write_conflict(bump_versions(vers, ws1, c + 1), snap2, ws2),
        ({
            let both = apply_writes(apply_writes(base, tv1, ws1), tv2, ws2);
            &&& forall|k: Seq<u8>|
                #[trigger] ws1.contains(k) ==> both.contains_key(k) == tv1.contains_key(k) && (
                tv1.contains_key(k) ==> both[k] == tv1[k])
            &&& forall|k: Seq<u8>|
                #[trigger] ws2.contains(k) ==> both.contains_key(k) == tv2.contains_key(k) && (
                tv2.contains_key(k) ==> both[k] == tv2[k])
            &&& forall|k: Seq<u8>|
                !ws1.contains(k) && !ws2.contains(k) ==> both.contains_key(k)
                    == base.contains_key(k) && (base.contains_key(k) ==> both[k] == base[k])
        }),
{
    if write_conflict(vers, snap1, ws1) {
        let k = choose|k: Seq<u8>| ws1.contains(k) && vers.contains_key(k) && vers[k] > snap1;
        assert(vers[k] <= c);
        assert(false);
    }
    if write_conflict(bump_versions(vers, ws1, c + 1), snap2, ws2) {
        let bumped = bump_versions(vers, ws1, c + 1);
        let k = choose|k: Seq<u8>|
            ws2.contains(k) && bumped.contains_key(k) && bumped[k] > snap2;
        assert(!ws1.contains(k));
        assert(vers.contains_key(k));
        assert(vers[k] <= c);
        assert(false);
    }
}

/// Overlapping writers conflict: when one transaction commits first,
/// publishing version `c + 1` on its written keys, a transaction whose
/// snapshot is at most `c` and whose write set shares the key `k`
/// observes a commit conflict.
pub proof fn lemma_overlapping_writers_conflict(
    vers: Map<Seq<u8>, nat>,
    c: nat,
    ws1: Set<Seq<u8>>,
    snap2: nat,
    ws2: Set<Seq<u8>>,
    k: Seq<u8>,
)
    requires
        snap2 <= c,
        ws1.contains(k),
        ws2.contains(k),
    ensures
        write_conflict(bump_versions(vers, ws1, c + 1), snap2, ws2),
{
    let bumped = bump_versions(vers, ws1, c + 1);
    assert(bumped.contains_key(k));
    assert(bumped[k] == c + 1);
}

/// An empty range selects nothing: a query whose start equals its end
/// matches no key.
pub proof fn lemma_empty_range(s: Seq<(Seq<u8>, Seq<u8>)>, b: Seq<u8>)
    ensures
        kvs_range(s, b, b).len() == 0,
    decreases s.len(),
{
    if s.len() > 0 {
        lemma_empty_range(s.drop_last(), b);
        lemma_lex_trichotomy(b, s.last().0);
        assert(!in_range(b, b, s.last().0));
    }
}

/// Every pair a range query selects lies inside the half-open range: the
/// start is inclusive and the end exclusive.
pub proof fn lemma_kvs_range_in_range(s: Seq<(Seq<u8>, Seq<u8>)>, start: Seq<u8>, end: Seq<u8>)
    ensures
        forall|t: int|
            0 <= t < kvs_range(s, start, end).len() ==> in_range(
                start,
                end,
                #[trigger] kvs_range(s, start, end)[t].0,
            ),
    decreases s.len(),
{
    if s.len() > 0 {
        lemma_kvs_range_in_range(s.drop_last(), start, end);
        let r0 = kvs_range(s.drop_last(), start, end);
        let r = kvs_range(s, start, end);
        assert forall|t: int| 0 <= t < r.len() implies in_range(start, end, r[t].0) by {
            if t < r0.len() {
                assert(r[t] == r0[t]);
            } else {
                assert(r[t] == s.last());
            }
        }
    }
}

/// A key bound on the enumerated pairs bounds the selected pairs.
proof fn lemma_kvs_range_bound(
    s: Seq<(Seq<u8>, Seq<u8>)>,
    start: Seq<u8>,
    end: Seq<u8>,
    ub: Seq<u8>,
)
    requires
        forall|j: int| 0 <= j < s.len() ==> lex_lt(#[trigger] s[j].0, ub),
    ensures
        forall|t: int|
            0 <= t < kvs_range(s, start, end).len() ==> lex_lt(
                #[trigger] kvs_range(s, start, end)[t].0,
                ub,
            ),
    decreases s.len(),
{
    if s.len() > 0 {
        lemma_kvs_range_bound(s.drop_last(), start, end, ub);
        let r0 = kvs_range(s.drop_last(), start, end);
        let r = kvs_range(s, start, end);
        assert forall|t: int| 0 <= t < r.len() implies lex_lt(r[t].0, ub) by {
            if t < r0.len() {
                assert(r[t] == r0[t]);
            } else {
                assert(r[t] == s.last());
            }
        }
    }
}

/// Range selection keeps ascending key order: a cursor over a sorted
/// snapshot yields its entries in ascending order.
pub proof fn lemma_kvs_range_sorted(s: Seq<(Seq<u8>, Seq<u8>)>, start: Seq<u8>, end: Seq<u8>)
    requires
        kvs_sorted(s),
    ensures
        kvs_sorted(kvs_range(s, start, end)),
    decreases s.len(),
{
    if s.len() > 0 {
        lemma_kvs_range_sorted(s.drop_last(), start, end);
        let r0 = kvs_range(s.drop_last(), start, end);
        let r = kvs_range(s, start, end);
        if in_range(start, end, s.last().0) {
            lemma_kvs_range_bound(s.drop_last(), start, end, s.last().0);
            assert forall|i: int, j: int| 0 <= i < j < r.len() implies lex_lt(
                #[trigger] r[i].0,
                #[trigger] r[j].0,
            ) by {
                if j < r0.len() {
                    assert(r[i] == r0[i] && r[j] == r0[j]);
                } else {
                    assert(r[j] == s.last());
                    assert(r[i] == r0[i]);
                }
            }
        } else {
            assert(r =~= r0);
        }
    }
}

} // verus!
