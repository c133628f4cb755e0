//! Per-worker aggregation, keyed by raw bytes and kept in byte order.
//!
//! A shard map holds one entry per distinct key, in strictly ascending
//! byte order. A worker feeds it one record at a time; the coordinator
//! folds whole shards into one map with the same rule. Keeping the
//! entries ordered at every step makes the final report deterministic.

use vstd::prelude::*;
use crate::order::{lex_lt, key_lt, bytes_eq, lemma_lex_irrefl, lemma_lex_trans, lemma_lex_total};
use crate::stats::Stats;

verus! {

/// The mapping a sequence of key/stats pairs denotes.
pub open spec fn seq_to_map(s: Seq<(Seq<u8>, Stats)>) -> Map<Seq<u8>, Stats>
    decreases s.len(),
{
    if s.len() == 0 {
        Map::empty()
    } else {
        seq_to_map(s.drop_last()).insert(s.last().0, s.last().1)
    }
}

/// A key is in the mapping exactly when some pair carries it.
pub proof fn lemma_seq_to_map_contains(s: Seq<(Seq<u8>, Stats)>)
    ensures
        forall|k: Seq<u8>|
            #[trigger] seq_to_map(s).contains_key(k) <==> (exists|i: int|
                0 <= i < s.len() && s[i].0 == k),
    decreases s.len(),
{
    if s.len() > 0 {
        lemma_seq_to_map_contains(s.drop_last());
        assert forall|k: Seq<u8>|
            #[trigger] seq_to_map(s).contains_key(k) <==> (exists|i: int|
                0 <= i < s.len() && s[i].0 == k) by {
            if seq_to_map(s).contains_key(k) {
                if k == s.last().0 {
                    assert(s[s.len() - 1].0 == k);
                } else {
                    assert(seq_to_map(s.drop_last()).contains_key(k));
                    let i = choose|i: int| 0 <= i < s.drop_last().len() && s.drop_last()[i].0 == k;
                    assert(s.drop_last()[i] == s[i]);
                    assert(s[i].0 == k);
                }
            }
            if exists|i: int| 0 <= i < s.len() && s[i].0 == k {
                let i = choose|i: int| 0 <= i < s.len() && s[i].0 == k;
                if i == s.len() - 1 {
                    assert(seq_to_map(s).contains_key(k));
                } else {
                    assert(s.drop_last()[i] == s[i]);
                    assert(s.drop_last()[i].0 == k);
                    assert(seq_to_map(s.drop_last()).contains_key(k));
                }
            }
        }
    }
}

/// A pair whose key recurs nowhere later gives the mapping its value.
pub proof fn lemma_seq_to_map_index(s: Seq<(Seq<u8>, Stats)>, i: int)
    requires
        0 <= i < s.len(),
        forall|j: int| i < j < s.len() ==> s[j].0 != s[i].0,
    ensures
        seq_to_map(s).contains_key(s[i].0),
        seq_to_map(s)[s[i].0] == s[i].1,
    decreases s.len(),
{
    if i < s.len() - 1 {
        assert(s.drop_last()[i] == s[i]);
        lemma_seq_to_map_index(s.drop_last(), i);
        assert(s.last().0 != s[i].0);
    }
}

/// Replacing the stats of one key is, to the mapping, an insert.
pub proof fn lemma_seq_to_map_update(s: Seq<(Seq<u8>, Stats)>, i: int, st: Stats)
    requires
        0 <= i < s.len(),
        forall|j: int| 0 <= j < s.len() && j != i ==> s[j].0 != s[i].0,
    ensures
        seq_to_map(s.update(i, (s[i].0, st))) == seq_to_map(s).insert(s[i].0, st),
    decreases s.len(),
{
    let t = s.update(i, (s[i].0, st));
    if i == s.len() - 1 {
        assert(t.drop_last() =~= s.drop_last());
        assert(t.last() == (s[i].0, st));
        assert(seq_to_map(s.drop_last()).insert(s[i].0, s[i].1).insert(s[i].0, st)
            =~= seq_to_map(s.drop_last()).insert(s[i].0, st));
    } else {
        assert(t.drop_last() =~= s.drop_last().update(i, (s[i].0, st)));
        assert(t.last() == s.last());
        assert(s.drop_last()[i] == s[i]);
        lemma_seq_to_map_update(s.drop_last(), i, st);
        assert(s.last().0 != s[i].0);
        assert(seq_to_map(s.drop_last()).insert(s[i].0, st).insert(s.last().0, s.last().1)
            =~= seq_to_map(s.drop_last()).insert(s.last().0, s.last().1).insert(s[i].0, st));
    }
}

/// Inserting a pair with a fresh key is, to the mapping, an insert.
pub proof fn lemma_seq_to_map_insert(s: Seq<(Seq<u8>, Stats)>, p: int, k: Seq<u8>, st: Stats)
    requires
        0 <= p <= s.len(),
        forall|j: int| 0 <= j < s.len() ==> s[j].0 != k,
    ensures
        seq_to_map(s.insert(p, (k, st))) == seq_to_map(s).insert(k, st),
    decreases s.len(),
{
    let t = s.insert(p, (k, st));
    if p == s.len() {
        assert(t.drop_last() =~= s);
        assert(t.last() == (k, st));
    } else {
        assert(t.drop_last() =~= s.drop_last().insert(p, (k, st)));
        assert(t.last() == s.last());
        lemma_seq_to_map_insert(s.drop_last(), p, k, st);
        assert(s.last().0 != k);
        assert(seq_to_map(s.drop_last()).insert(k, st).insert(s.last().0, s.last().1)
            =~= seq_to_map(s.drop_last()).insert(s.last().0, s.last().1).insert(k, st));
    }
}

/// How many of the records of `rs` carry the key `k`.
pub open spec fn key_count(rs: Seq<(Seq<u8>, Seq<u8>)>, k: Seq<u8>) -> nat
    decreases rs.len(),
{
    if rs.len() == 0 {
        0
    } else {
        key_count(rs.drop_last(), k) + (if rs.last().0 == k {
            1nat
        } else {
            0nat
        })
    }
}

/// Sharding does not change any key's count: however the records are
/// split among workers, the per-shard counts of a key add up to its
/// single-pass count over all records — the merge rule `count = Σ
/// counts` reproduces a single-threaded pass exactly.
pub proof fn lemma_key_count_additive(r1: Seq<(Seq<u8>, Seq<u8>)>, r2: Seq<(Seq<u8>, Seq<u8>)>, k: Seq<u8>)
    ensures
        key_count(r1 + r2, k) == key_count(r1, k) + key_count(r2, k),
    decreases r2.len(),
{
    if r2.len() == 0 {
        assert(r1 + r2 =~= r1);
    } else {
        assert((r1 + r2).drop_last() =~= r1 + r2.drop_last());
        assert((r1 + r2).last() == r2.last());
        lemma_key_count_additive(r1, r2.drop_last(), k);
    }
}

/// One shard's (or the merged) key-to-stats mapping, as an ordered
/// sequence of entries.
pub struct ShardMap {
    entries: Vec<(Vec<u8>, Stats)>,
}

impl View for ShardMap {
    type V = Seq<(Seq<u8>, Stats)>;

    closed spec fn view(&self) -> Seq<(Seq<u8>, Stats)> {
        self.entries@.map_values(|e: (Vec<u8>, Stats)| (e.0@, e.1))
    }
}

impl ShardMap {
    /// Entries stand in strictly ascending byte order of their keys;
    /// in particular no two entries share a key.
    pub open spec fn wf(&self) -> bool {
        forall|i: int, j: int| 0 <= i < j < self@.len() ==> lex_lt(self@[i].0, self@[j].0)
    }

    /// The mapping the entries denote.
    pub open spec fn as_map(&self) -> Map<Seq<u8>, Stats> {
        seq_to_map(self@)
    }

    /// An empty map.
    pub fn new() -> (r: ShardMap)
        ensures
            r.wf(),
            r@ == Seq::<(Seq<u8>, Stats)>::empty(),
    {
        let r = ShardMap { entries: Vec::new() };
        proof {
            assert(r@ =~= Seq::<(Seq<u8>, Stats)>::empty());
        }
        r
    }

    /// How many distinct keys the map holds.
    pub fn len(&self) -> (r: usize)
        ensures
            r == self@.len(),
    {
        self.entries.len()
    }

    /// The entry at one position of the ascending order.
    pub fn entry_at(&self, i: usize) -> (r: &(Vec<u8>, Stats))
        requires
            i < self@.len(),
        ensures
            (r.0@, r.1) == self@[i as int],
    {
        vstd::std_specs::vec::vec_index(&self.entries, i)
    }

    /// First position whose key does not come before `key`.
    fn lower_bound(&self, key: &[u8]) -> (r: usize)
        requires
            self.wf(),
        ensures
            r <= self@.len(),
            forall|j: int| 0 <= j < r ==> lex_lt(self@[j].0, key@),
            r < self@.len() ==> !lex_lt(self@[r as int].0, key@),
    {
        let mut i: usize = 0;
        let n = self.entries.len();
        while i < n
            invariant
                n == self@.len(),
                i <= n,
                forall|j: int| 0 <= j < i ==> lex_lt(self@[j].0, key@),
            decreases n - i,
        {
            let e = vstd::std_specs::vec::vec_index(&self.entries, i);
            if !key_lt(e.0.as_slice(), key) {
                return i;
            }
            i = i + 1;
        }
        i
    }

    /// All keys before `r` come before `key`; at and after `r` they do not.
    proof fn lemma_absent(&self, key: Seq<u8>, r: int)
        requires
            self.wf(),
            0 <= r <= self@.len(),
            forall|j: int| 0 <= j < r ==> lex_lt(self@[j].0, key),
            r < self@.len() ==> lex_lt(key, self@[r].0),
        ensures
            !self.as_map().contains_key(key),
    {
        assert forall|j: int| 0 <= j < self@.len() implies self@[j].0 != key by {
            if j < r {
                if self@[j].0 == key {
                    lemma_lex_irrefl(key);
                }
            } else {
                if j > r {
                    lemma_lex_trans(key, self@[r].0, self@[j].0);
                }
                if self@[j].0 == key {
                    lemma_lex_irrefl(key);
                }
            }
        }
        lemma_seq_to_map_contains(self@);
    }

    /// No other entry carries the key of entry `i`.
    proof fn lemma_unique(&self, i: int)
        requires
            self.wf(),
            0 <= i < self@.len(),
        ensures
            forall|j: int| 0 <= j < self@.len() && j != i ==> self@[j].0 != self@[i].0,
    {
        assert forall|j: int| 0 <= j < self@.len() && j != i implies self@[j].0 != self@[i].0 by {
            if self@[j].0 == self@[i].0 {
                lemma_lex_irrefl(self@[i].0);
            }
        }
    }

    /// Looks a key up.
    /// Returns `Some` exactly when the key has been seen before.
    pub fn get(&self, key: &[u8]) -> (r: Option<Stats>)
        requires
            self.wf(),
        ensures
            match r {
                Some(st) => self.as_map().contains_key(key@) && self.as_map()[key@] == st,
                None => !self.as_map().contains_key(key@),
            },
    {
        let i = self.lower_bound(key);
        if i < self.entries.len() {
            let e = vstd::std_specs::vec::vec_index(&self.entries, i);
            if bytes_eq(e.0.as_slice(), key) {
                proof {
                    self.lemma_unique(i as int);
                    lemma_seq_to_map_index(self@, i as int);
                }
                return Some(e.1);
            }
            proof {
                lemma_lex_total(key@, self@[i as int].0);
                self.lemma_absent(key@, i as int);
            }
            return None;
        }
        proof {
            self.lemma_absent(key@, i as int);
        }
        None
    }

    /// The view after the entries changed only in entry `i`'s stats.
    proof fn lemma_view_update(&self, old_view: Seq<(Seq<u8>, Stats)>, i: int, st: Stats)
        requires
            0 <= i < old_view.len(),
            self@.len() == old_view.len(),
            forall|j: int| 0 <= j < old_view.len() && j != i ==> self@[j] == old_view[j],
            self@[i].0 == old_view[i].0,
            self@[i].1 == st,
        ensures
            self@ == old_view.update(i, (old_view[i].0, st)),
    {
        assert(self@ =~= old_view.update(i, (old_view[i].0, st)));
    }

    /// Records one value for `key`: the map's own part of the update
    /// rule. A fresh key enters with count one and `bits` as sum, minimum
    /// and maximum; a seen key has its count raised by one and takes the
    /// caller's folded `sum_bits`/`min_bits`/`max_bits`. Fails, changing
    /// nothing, only when the count can no longer rise.
    pub fn observe(&mut self, key: &[u8], bits: u64, sum_bits: u64, min_bits: u64, max_bits: u64)
        -> (r: bool)
        requires
            old(self).wf(),
        ensures
            final(self).wf(),
            ({
                let m = old(self).as_map();
                if !m.contains_key(key@) {
                    &&& r
                    &&& final(self).as_map() == m.insert(key@, (Stats {
                        count: 1,
                        sum_bits: bits,
                        min_bits: bits,
                        max_bits: bits,
                    }))
                    &&& final(self)@.len() == old(self)@.len() + 1
                } else if m[key@].count < u64::MAX {
                    &&& r
                    &&& final(self).as_map() == m.insert(key@, (Stats {
                        count: (m[key@].count + 1) as u64,
                        sum_bits: sum_bits,
                        min_bits: min_bits,
                        max_bits: max_bits,
                    }))
                    &&& final(self)@.len() == old(self)@.len()
                } else {
                    &&& !r
                    &&& final(self)@ == old(self)@
                }
            }),
    {
        let i = self.lower_bound(key);
        let n = self.entries.len();
        let ghost old_view = self@;
        if i < n {
            let e = vstd::std_specs::vec::vec_index(&self.entries, i);
            if bytes_eq(e.0.as_slice(), key) {
                proof {
                    self.lemma_unique(i as int);
                    lemma_seq_to_map_index(self@, i as int);
                }
                if e.1.count == u64::MAX {
                    return false;
                }
                let slot = vstd::std_specs::vec::vec_index_mut(&mut self.entries, i);
                slot.1.update(sum_bits, min_bits, max_bits);
                proof {
                    let st = old_view[i as int].1;
                    let st2 = Stats {
                        count: (st.count + 1) as u64,
                        sum_bits: sum_bits,
                        min_bits: min_bits,
                        max_bits: max_bits,
                    };
                    self.lemma_view_update(old_view, i as int, st2);
                    lemma_seq_to_map_update(old_view, i as int, st2);
                    assert forall|p: int, q: int| 0 <= p < q < self@.len() implies lex_lt(
                        self@[p].0,
                        self@[q].0,
                    ) by {
                        assert(self@[p].0 == old_view[p].0);
                        assert(self@[q].0 == old_view[q].0);
                    }
                }
                return true;
            }
            proof {
                lemma_lex_total(key@, old_view[i as int].0);
                self.lemma_absent(key@, i as int);
            }
        } else {
            proof {
                self.lemma_absent(key@, i as int);
            }
        }
        let st = Stats::new(bits);
        let key_vec = vstd::slice::slice_to_vec(key);
        self.entries.insert(i, (key_vec, st));
        proof {
            self.lemma_after_insert(old_view, i as int, key@, st);
        }
        true
    }

    /// The view and mapping after a fresh key entered at position `i`,
    /// and that the order is kept.
    proof fn lemma_after_insert(&self, old_view: Seq<(Seq<u8>, Stats)>, i: int, key: Seq<u8>, st: Stats)
        requires
            0 <= i <= old_view.len(),
            self@.len() == old_view.len() + 1,
            forall|j: int| 0 <= j < i ==> self@[j] == old_view[j],
            self@[i] == (key, st),
            forall|j: int| i < j < self@.len() ==> self@[j] == old_view[j - 1],
            forall|p: int, q: int| 0 <= p < q < old_view.len() ==> lex_lt(old_view[p].0, old_view[q].0),
            forall|j: int| 0 <= j < i ==> lex_lt(old_view[j].0, key),
            i < old_view.len() ==> lex_lt(key, old_view[i].0),
        ensures
            self.wf(),
            self@ == old_view.insert(i, (key, st)),
            self.as_map() == seq_to_map(old_view).insert(key, st),
            !seq_to_map(old_view).contains_key(key),
    {
        assert(self@ =~= old_view.insert(i, (key, st)));
        assert forall|j: int| 0 <= j < old_view.len() implies old_view[j].0 != key by {
            if j < i {
                if old_view[j].0 == key {
                    lemma_lex_irrefl(key);
                }
            } else {
                if j > i {
                    lemma_lex_trans(key, old_view[i].0, old_view[j].0);
                }
                if old_view[j].0 == key {
                    lemma_lex_irrefl(key);
                }
            }
        }
        lemma_seq_to_map_insert(old_view, i, key, st);
        lemma_seq_to_map_contains(old_view);
        assert forall|p: int, q: int| 0 <= p < q < self@.len() implies lex_lt(
            self@[p].0,
            self@[q].0,
        ) by {
            if p == i && q > i {
                if q - 1 > i {
                    lemma_lex_trans(key, old_view[i].0, old_view[q - 1].0);
                }
            } else if p < i && q > i {
                if q - 1 > i {
                    lemma_lex_trans(key, old_view[i].0, old_view[q - 1].0);
                }
                lemma_lex_trans(old_view[p].0, key, old_view[q - 1].0);
            }
        }
    }

    /// The report's ordering: any two entries of a well-formed map stand
    /// in strictly ascending byte order of their keys, so no key repeats.
    pub proof fn lemma_keys_ascending(&self, i: int, j: int)
        requires
            self.wf(),
            0 <= i < j < self@.len(),
        ensures
            lex_lt(self@[i].0, self@[j].0),
            self@[i].0 != self@[j].0,
    {
        if self@[i].0 == self@[j].0 {
            lemma_lex_irrefl(self@[i].0);
        }
    }

    /// Folds one whole entry of another shard into this map: the
    /// merge rule's own part. A fresh key takes the entry as it stands;
    /// a shared key has the counts added and takes the caller's folded
    /// `sum_bits`/`min_bits`/`max_bits`. Fails, changing nothing, only
    /// when the summed count does not fit.
    pub fn absorb(&mut self, key: &[u8], s: Stats, sum_bits: u64, min_bits: u64, max_bits: u64)
        -> (r: bool)
        requires
            old(self).wf(),
        ensures
            final(self).wf(),
            ({
                let m = old(self).as_map();
                if !m.contains_key(key@) {
                    &&& r
                    &&& final(self).as_map() == m.insert(key@, s)
                    &&& final(self)@.len() == old(self)@.len() + 1
                } else if m[key@].count + s.count <= u64::MAX {
                    &&& r
                    &&& final(self).as_map() == m.insert(key@, (Stats {
                        count: (m[key@].count + s.count) as u64,
                        sum_bits: sum_bits,
                        min_bits: min_bits,
                        max_bits: max_bits,
                    }))
                    &&& final(self)@.len() == old(self)@.len()
                } else {
                    &&& !r
                    &&& final(self)@ == old(self)@
                }
            }),
    {
        let i = self.lower_bound(key);
        let n = self.entries.len();
        let ghost old_view = self@;
        if i < n {
            let e = vstd::std_specs::vec::vec_index(&self.entries, i);
            if bytes_eq(e.0.as_slice(), key) {
                proof {
                    self.lemma_unique(i as int);
                    lemma_seq_to_map_index(self@, i as int);
                }
                let room = u64::MAX - e.1.count;
                if s.count > room {
                    return false;
                }
                let new_count = e.1.count + s.count;
                let slot = vstd::std_specs::vec::vec_index_mut(&mut self.entries, i);
                slot.1 = Stats {
                    count: new_count,
                    sum_bits: sum_bits,
                    min_bits: min_bits,
                    max_bits: max_bits,
                };
                proof {
                    let st2 = Stats {
                        count: new_count,
                        sum_bits: sum_bits,
                        min_bits: min_bits,
                        max_bits: max_bits,
                    };
                    self.lemma_view_update(old_view, i as int, st2);
                    lemma_seq_to_map_update(old_view, i as int, st2);
                    assert forall|p: int, q: int| 0 <= p < q < self@.len() implies lex_lt(
                        self@[p].0,
                        self@[q].0,
                    ) by {
                        assert(self@[p].0 == old_view[p].0);
                        assert(self@[q].0 == old_view[q].0);
                    }
                }
                return true;
            }
            proof {
                lemma_lex_total(key@, old_view[i as int].0);
                self.lemma_absent(key@, i as int);
            }
        } else {
            proof {
                self.lemma_absent(key@, i as int);
            }
        }
        let key_vec = vstd::slice::slice_to_vec(key);
        self.entries.insert(i, (key_vec, s));
        proof {
            self.lemma_after_insert(old_view, i as int, key@, s);
        }
        true
    }
}

} // verus!
