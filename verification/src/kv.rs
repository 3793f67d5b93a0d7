//! Entries, queries, and the mathematical model of a key-ordered entry list.
//!
//! Both the committed state of a datastore and the working state of a
//! transaction are sequences of entries kept strictly sorted by key; their
//! abstract value is the map from keys to values.

use vstd::prelude::*;

use crate::keys::{lex_le, lex_lt, lemma_lex_trichotomy};

verus! {

/// An immutable (key, value) pair produced by reads and iteration.
#[derive(Debug)]
pub struct Entry {
    pub key: Vec<u8>,
    pub value: Vec<u8>,
}

impl Clone for Entry {
    fn clone(&self) -> (r: Self)
        ensures
            r.key@ == self.key@,
            r.value@ == self.value@,
    {
        Entry { key: clone_bytes(&self.key), value: clone_bytes(&self.value) }
    }
}

/// Copies a byte string.
pub fn clone_bytes(v: &Vec<u8>) -> (r: Vec<u8>)
    ensures
        r@ == v@,
{
    let mut r: Vec<u8> = Vec::new();
    let mut i: usize = 0;
    while i < v.len()
        invariant
            0 <= i <= v@.len(),
            r@ == v@.subrange(0, i as int),
        decreases v@.len() - i,
    {
        r.push(v[i]);
        proof {
            assert(r@ =~= v@.subrange(0, i + 1));
        }
        i = i + 1;
    }
    proof {
        assert(v@.subrange(0, v@.len() as int) =~= v@);
    }
    r
}

/// A key-range specification: entries with `start <= key < end` are
/// selected, in ascending key order unless `descending` is set, at most
/// `limit` of them if a limit is given.
#[derive(Debug)]
pub struct Query {
    pub start: Vec<u8>,
    pub end: Vec<u8>,
    pub descending: bool,
    pub limit: Option<usize>,
}

impl Query {
    /// A query is well-formed when its range is not inverted.
    pub open spec fn valid(&self) -> bool {
        lex_le(self.start@, self.end@)
    }
}

/// Some entry of `s` bears the key `k`.
pub open spec fn has_key(s: Seq<Entry>, k: Seq<u8>) -> bool {
    exists|i: int| 0 <= i < s.len() && s[i].key@ == k
}

/// The position of the entry bearing `k` (meaningful when keys are distinct).
pub open spec fn index_of(s: Seq<Entry>, k: Seq<u8>) -> int {
    choose|i: int| 0 <= i < s.len() && s[i].key@ == k
}

/// The value stored under `k`.
pub open spec fn value_of(s: Seq<Entry>, k: Seq<u8>) -> Seq<u8> {
    s[index_of(s, k)].value@
}

/// The abstract content of an entry list: the map from keys to values.
pub open spec fn kv_map(s: Seq<Entry>) -> Map<Seq<u8>, Seq<u8>> {
    Map::new(|k: Seq<u8>| has_key(s, k), |k: Seq<u8>| value_of(s, k))
}

/// Keys appear in strictly ascending byte-lexicographic order.
pub open spec fn keys_sorted(s: Seq<Entry>) -> bool {
    forall|i: int, j: int|
        0 <= i < j < s.len() ==> lex_lt(#[trigger] s[i].key@, #[trigger] s[j].key@)
}

/// No two entries bear the same key.
pub open spec fn keys_distinct(s: Seq<Entry>) -> bool {
    forall|i: int, j: int|
        0 <= i < j < s.len() ==> #[trigger] s[i].key@ != #[trigger] s[j].key@
}

/// Sorted keys are distinct.
pub proof fn lemma_sorted_distinct(s: Seq<Entry>)
    requires
        keys_sorted(s),
    ensures
        keys_distinct(s),
{
    assert forall|i: int, j: int|
        0 <= i < j < s.len() implies #[trigger] s[i].key@ != #[trigger] s[j].key@ by {
        lemma_lex_trichotomy(s[i].key@, s[j].key@);
    }
}

/// With distinct keys, the entry at `i` is the one `kv_map` speaks of.
pub proof fn lemma_at_key(s: Seq<Entry>, i: int)
    requires
        keys_distinct(s),
        0 <= i < s.len(),
    ensures
        has_key(s, s[i].key@),
        index_of(s, s[i].key@) == i,
        value_of(s, s[i].key@) == s[i].value@,
        kv_map(s).contains_key(s[i].key@),
        kv_map(s)[s[i].key@] == s[i].value@,
{
    assert(has_key(s, s[i].key@));
    let j = index_of(s, s[i].key@);
    assert(0 <= j < s.len() && s[j].key@ == s[i].key@);
    if i != j {
        assert(false);
    }
}

/// A key within the half-open range `[start, end)`.
pub open spec fn in_range(start: Seq<u8>, end: Seq<u8>, k: Seq<u8>) -> bool {
    lex_le(start, k) && lex_lt(k, end)
}

/// The minimum of two mathematical integers.
pub open spec fn spec_min(a: int, b: int) -> int {
    if a < b {
        a
    } else {
        b
    }
}

/// The view of each entry in a sequence: its (key, value) byte strings.
pub open spec fn entry_kvs(s: Seq<Entry>) -> Seq<(Seq<u8>, Seq<u8>)> {
    s.map_values(|e: Entry| (e.key@, e.value@))
}

/// The pairs of `s` whose keys fall in `[start, end)`, in the order of `s`.
pub open spec fn kvs_range(s: Seq<(Seq<u8>, Seq<u8>)>, start: Seq<u8>, end: Seq<u8>) -> Seq<
    (Seq<u8>, Seq<u8>),
>
    decreases s.len(),
{
    if s.len() == 0 {
        Seq::empty()
    } else {
        kvs_range(s.drop_last(), start, end) + if in_range(start, end, s.last().0) {
            seq![s.last()]
        } else {
            Seq::empty()
        }
    }
}

/// Appending a pair extends the selection by that pair when it matches.
pub proof fn lemma_kvs_range_push(
    s: Seq<(Seq<u8>, Seq<u8>)>,
    start: Seq<u8>,
    end: Seq<u8>,
    p: (Seq<u8>, Seq<u8>),
)
    ensures
        kvs_range(s.push(p), start, end) == kvs_range(s, start, end) + if in_range(
            start,
            end,
            p.0,
        ) {
            seq![p]
        } else {
            Seq::<(Seq<u8>, Seq<u8>)>::empty()
        },
{
    assert(s.push(p).drop_last() =~= s);
    assert(s.push(p).last() == p);
}

/// What a cursor yields for a query over the ordered pairs `s`: the
/// in-range pairs, reversed when descending, cut to the limit.
pub open spec fn kvs_query(
    s: Seq<(Seq<u8>, Seq<u8>)>,
    start: Seq<u8>,
    end: Seq<u8>,
    descending: bool,
    limit: Option<usize>,
) -> Seq<(Seq<u8>, Seq<u8>)> {
    let m = kvs_range(s, start, end);
    let o = if descending {
        m.reverse()
    } else {
        m
    };
    match limit {
        Some(l) => o.take(spec_min(l as int, o.len() as int)),
        None => o,
    }
}

/// Keys of a pair sequence appear in strictly ascending order.
pub open spec fn kvs_sorted(s: Seq<(Seq<u8>, Seq<u8>)>) -> bool {
    forall|i: int, j: int| 0 <= i < j < s.len() ==> lex_lt(#[trigger] s[i].0, #[trigger] s[j].0)
}

/// A pair sequence enumerates exactly the contents of the map `m`.
pub open spec fn kvs_matches_map(s: Seq<(Seq<u8>, Seq<u8>)>, m: Map<Seq<u8>, Seq<u8>>) -> bool {
    &&& forall|t: int|
        0 <= t < s.len() ==> m.contains_key(#[trigger] s[t].0) && m[s[t].0] == s[t].1
    &&& forall|k: Seq<u8>|
        m.contains_key(k) ==> exists|t: int| 0 <= t < s.len() && #[trigger] s[t].0 == k
}

} // verus!
