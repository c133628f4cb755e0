//! The worker-side table: the hash map the hot loop aggregates into.
//!
//! Each worker owns one, private to it, and fills it record by record
//! with no lock; ordering happens only at the merge. The table is a
//! hashbrown hash map seeded by an ahash random state. Verus sees it
//! through one name, `wm_contents`: the mapping from key bytes to stats
//! that it holds. Iteration order is promised nowhere — a seeded hash
//! map walks its keys differently in every process — so handing the
//! entries out pins a set of pairs, never an order.

use vstd::prelude::*;
use crate::stats::Stats;

verus! {

/// A worker's private key-to-stats table.
#[verifier::external_body]
pub struct WorkerMap {
    inner: hashbrown::HashMap<Vec<u8>, Stats, ahash::RandomState>,
}

/// The mapping from key bytes to stats that the table holds.
pub uninterp spec fn wm_contents(m: WorkerMap) -> Map<Seq<u8>, Stats>;

impl View for WorkerMap {
    type V = Map<Seq<u8>, Stats>;

    open spec fn view(&self) -> Map<Seq<u8>, Stats> {
        wm_contents(*self)
    }
}

/// Relies on hashbrown::HashMap::default for the table itself; nothing
/// is assumed of it — `WorkerMap::new` establishes emptiness by clearing.
#[verifier::external_body]
fn fresh_table() -> WorkerMap {
    WorkerMap { inner: hashbrown::HashMap::default() }
}

/// Relies on hashbrown::HashMap::clear: removes every pair.
#[verifier::external_body]
fn clear_table(m: &mut WorkerMap)
    ensures
        forall|k: Seq<u8>| !wm_contents(*final(m)).contains_key(k),
{
    m.inner.clear();
}

/// Relies on hashbrown::HashMap::get: the value stored under the key,
/// and `None` exactly when the key is absent.
#[verifier::external_body]
fn get_stats(m: &WorkerMap, key: &[u8]) -> (r: Option<Stats>)
    ensures
        match r {
            Some(s) => m@.contains_key(key@) && m@[key@] == s,
            None => !m@.contains_key(key@),
        },
{
    m.inner.get(key).copied()
}

/// Relies on hashbrown::HashMap::insert: stores the value under the
/// key, replacing any previous one.
#[verifier::external_body]
fn put_stats(m: &mut WorkerMap, key: Vec<u8>, s: Stats)
    ensures
        wm_contents(*final(m)) == wm_contents(*old(m)).insert(key@, s),
{
    m.inner.insert(key, s);
}

/// Relies on hashbrown::HashMap::into_iter: every stored pair is handed
/// out exactly once, in no promised order.
#[verifier::external_body]
fn drain_table(m: WorkerMap) -> (r: Vec<(Vec<u8>, Stats)>)
    ensures
        forall|i: int|
            0 <= i < r@.len() ==> (#[trigger] wm_contents(m).contains_key(r@[i].0@))
                && wm_contents(m)[r@[i].0@] == r@[i].1,
        forall|i: int, j: int| 0 <= i < j < r@.len() ==> r@[i].0@ != r@[j].0@,
        forall|k: Seq<u8>|
            #[trigger] wm_contents(m).contains_key(k) ==> exists|i: int|
                0 <= i < r@.len() && (#[trigger] r@[i].0@) == k,
{
    m.inner.into_iter().collect()
}

impl WorkerMap {
    /// An empty worker table.
    pub fn new() -> (r: WorkerMap)
        ensures
            r@ == Map::<Seq<u8>, Stats>::empty(),
    {
        let mut table = fresh_table();
        clear_table(&mut table);
        table
    }

    /// Looks a key up.
    /// Returns `Some` exactly when the key has been seen before.
    pub fn get(&self, key: &[u8]) -> (r: Option<Stats>)
        ensures
            match r {
                Some(s) => self@.contains_key(key@) && self@[key@] == s,
                None => !self@.contains_key(key@),
            },
    {
        get_stats(self, key)
    }

    /// Records one value for `key`, as `ShardMap::observe` does but into
    /// the worker's hash table: a fresh key enters with count one and
    /// `bits` everywhere; a seen key has its count raised by one and
    /// takes the caller's folded patterns. Fails, changing nothing, only
    /// when the count can no longer rise.
    pub fn observe(&mut self, key: &[u8], bits: u64, sum_bits: u64, min_bits: u64, max_bits: u64)
        -> (r: bool)
        ensures
            ({
                let m = old(self)@;
                if !m.contains_key(key@) {
                    &&& r
                    &&& final(self)@ == m.insert(key@, (Stats {
                        count: 1,
                        sum_bits: bits,
                        min_bits: bits,
                        max_bits: bits,
                    }))
                } else if m[key@].count < u64::MAX {
                    &&& r
                    &&& final(self)@ == m.insert(key@, (Stats {
                        count: (m[key@].count + 1) as u64,
                        sum_bits: sum_bits,
                        min_bits: min_bits,
                        max_bits: max_bits,
                    }))
                } else {
                    &&& !r
                    &&& final(self)@ == m
                }
            }),
    {
        match get_stats(self, key) {
            None => {
                let st = Stats::new(bits);
                put_stats(self, vstd::slice::slice_to_vec(key), st);
                true
            },
            Some(mut st) => {
                if st.count == u64::MAX {
                    return false;
                }
                st.update(sum_bits, min_bits, max_bits);
                put_stats(self, vstd::slice::slice_to_vec(key), st);
                true
            },
        }
    }

    /// Hands the table's pairs out: each stored key exactly once with
    /// its stats, in whatever order the hash map walks them.
    pub fn into_entries(self) -> (r: Vec<(Vec<u8>, Stats)>)
        ensures
            forall|i: int|
                0 <= i < r@.len() ==> (#[trigger] self@.contains_key(r@[i].0@)) && self@[r@[i].0@]
                    == r@[i].1,
            forall|i: int, j: int| 0 <= i < j < r@.len() ==> r@[i].0@ != r@[j].0@,
            forall|k: Seq<u8>|
                #[trigger] self@.contains_key(k) ==> exists|i: int|
                    0 <= i < r@.len() && (#[trigger] r@[i].0@) == k,
    {
        drain_table(self)
    }
}

} // verus!
