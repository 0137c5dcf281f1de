//! The correlator: merges normalized events from a fixed, named set of
//! sources, tracks partial arrival state per correlation key, emits a
//! comparison record when all sources have reported a key, and evicts
//! stale state.
//!
//! The store is a vector of rows kept strictly sorted by key, so the
//! eviction sweep is a prefix removal and the minimum stored key is always
//! at the front.

use vstd::prelude::*;
use vstd::pervasive::VecAdditionalExecFns;
use crate::errors::FailureKind;
use crate::normalizer::{normalize, Normalized, Payload};

verus! {

/// What one ingested payload did to the correlator.
pub enum IngestOutcome {
    /// Every source has now reported the key: its comparison record, and
    /// the stale prefix of the store was evicted.
    Completed { completion: Completion },
    /// The event was recorded; its key is still missing sources.
    Recorded,
    /// The payload was unrelated and ignored.
    Skipped,
    /// The payload could not be normalized; the source's worker aborts.
    Failed { kind: FailureKind },
}

/// For one correlation key: the latest timestamp each source reported, in
/// declared source order. A slot is `None` until that source first reports
/// the key; a later report from the same source overwrites the slot (last
/// write wins).
pub struct ArrivalRow {
    pub key: u64,
    pub times: Vec<Option<u64>>,
}

/// Emitted when every source has reported a key: for each source, in
/// declared order, the elapsed time since the earliest arrival of that key.
pub struct Completion {
    pub key: u64,
    pub deltas: Vec<u64>,
}

/// An all-`None` row for a correlator over `n` sources.
pub open spec fn empty_row(n: nat) -> Seq<Option<u64>> {
    Seq::new(n, |i: int| None)
}

/// The row after `source` reports at `at`: that slot is overwritten,
/// whether or not it already held a timestamp.
pub open spec fn row_update(row: Seq<Option<u64>>, source: int, at: u64) -> Seq<Option<u64>> {
    row.update(source, Some(at))
}

/// Every source has reported.
pub open spec fn row_complete(row: Seq<Option<u64>>) -> bool {
    forall|i: int| 0 <= i < row.len() ==> row[i] is Some
}

/// The raw timestamps of a complete row, in declared source order.
pub open spec fn times_of(row: Seq<Option<u64>>) -> Seq<u64> {
    Seq::new(row.len(), |i: int| row[i]->0)
}

/// Minimum of a non-empty sequence of timestamps.
pub open spec fn seq_min(s: Seq<u64>) -> u64
    recommends
        s.len() > 0,
    decreases s.len(),
{
    if s.len() <= 1 {
        s[0]
    } else {
        let m = seq_min(s.drop_last());
        if s.last() < m {
            s.last()
        } else {
            m
        }
    }
}

/// Per-source elapsed time since the earliest arrival of a complete row,
/// in declared source order: `times[i] - min(times)`.
pub open spec fn deltas_of(row: Seq<Option<u64>>) -> Seq<u64> {
    Seq::new(row.len(), |i: int| (row[i]->0 - seq_min(times_of(row))) as u64)
}

/// The minimum of a non-empty sequence is one of its elements and is a
/// lower bound for all of them.
pub proof fn lemma_seq_min(s: Seq<u64>)
    requires
        s.len() > 0,
    ensures
        forall|i: int| 0 <= i < s.len() ==> seq_min(s) <= s[i],
        exists|i: int| 0 <= i < s.len() && s[i] == seq_min(s),
    decreases s.len(),
{
    if s.len() > 1 {
        lemma_seq_min(s.drop_last());
        assert forall|i: int| 0 <= i < s.len() implies seq_min(s) <= s[i] by {
            if i < s.len() - 1 {
                assert(s.drop_last()[i] == s[i]);
            }
        }
        if s.last() < seq_min(s.drop_last()) {
            assert(s[s.len() - 1] == seq_min(s));
        } else {
            let j = choose|j: int|
                0 <= j < s.drop_last().len() && s.drop_last()[j] == seq_min(s.drop_last());
            assert(s[j] == seq_min(s));
        }
    } else {
        assert(s[0] == seq_min(s));
    }
}

/// Law: in every completed comparison record the delta of each source
/// whose raw timestamp is the earliest is exactly zero, at least one
/// source attains it, and every raw timestamp is at least the minimum, so
/// no delta underflows.
pub proof fn lemma_deltas_zero_at_min(row: Seq<Option<u64>>)
    requires
        row.len() > 0,
        row_complete(row),
    ensures
        forall|i: int|
            0 <= i < row.len() && row[i]->0 == seq_min(times_of(row)) ==> deltas_of(row)[i] == 0,
        exists|i: int| 0 <= i < row.len() && deltas_of(row)[i] == 0,
        forall|i: int| 0 <= i < row.len() ==> seq_min(times_of(row)) <= row[i]->0,
{
    lemma_seq_min(times_of(row));
    let j = choose|j: int|
        0 <= j < times_of(row).len() && times_of(row)[j] == seq_min(times_of(row));
    assert(deltas_of(row)[j] == 0);
    assert forall|i: int| 0 <= i < row.len() implies seq_min(times_of(row)) <= row[i]->0 by {
        assert(times_of(row)[i] == row[i]->0);
    }
}

/// Law: recording a timestamp for a source and key that already hold one
/// overwrites it, so two consecutive reports from the same source for the
/// same key leave exactly the state a single report of the second
/// timestamp would have left.
pub proof fn lemma_row_overwrite(row: Seq<Option<u64>>, source: int, t1: u64, t2: u64)
    requires
        0 <= source < row.len(),
    ensures
        row_update(row_update(row, source, t1), source, t2) == row_update(row, source, t2),
{
    assert(row_update(row_update(row, source, t1), source, t2) =~= row_update(row, source, t2));
}

/// Law: two consecutive reports from the same source for the same key,
/// with no completion in between, leave exactly the store that a single
/// report of the second timestamp would have left — stated over the
/// store transition that an incomplete `record` performs.
pub proof fn lemma_record_overwrite(
    m: Map<u64, Seq<Option<u64>>>,
    n: nat,
    source: int,
    key: u64,
    t1: u64,
    t2: u64,
)
    requires
        0 <= source < n,
        m.dom().contains(key) ==> m[key].len() == n,
    ensures
        ({
            let row0 = if m.dom().contains(key) {
                m[key]
            } else {
                empty_row(n)
            };
            let m1 = m.insert(key, row_update(row0, source, t1));
            m1.insert(key, row_update(m1[key], source, t2)) == m.insert(
                key,
                row_update(row0, source, t2),
            )
        }),
{
    let row0 = if m.dom().contains(key) {
        m[key]
    } else {
        empty_row(n)
    };
    lemma_row_overwrite(row0, source, t1, t2);
    let m1 = m.insert(key, row_update(row0, source, t1));
    assert(m1.insert(key, row_update(m1[key], source, t2)) =~= m.insert(
        key,
        row_update(row0, source, t2),
    ));
}

/// True when some row of `es` carries key `k`.
pub open spec fn has_key(es: Seq<ArrivalRow>, k: u64) -> bool {
    exists|i: int| 0 <= i < es.len() && (#[trigger] es[i]).key == k
}

/// The index of the row carrying `k`; meaningful when keys are unique.
pub open spec fn idx_of(es: Seq<ArrivalRow>, k: u64) -> int {
    choose|i: int| 0 <= i < es.len() && (#[trigger] es[i]).key == k
}

/// The rows of `es` as a map from key to the per-source timestamps.
pub open spec fn stored_of(es: Seq<ArrivalRow>) -> Map<u64, Seq<Option<u64>>> {
    Map::new(|k: u64| has_key(es, k), |k: u64| es[idx_of(es, k)].times@)
}

/// Keys strictly increase along `es`.
pub open spec fn entries_sorted(es: Seq<ArrivalRow>) -> bool {
    forall|i: int, j: int| 0 <= i < j < es.len() ==> es[i].key < es[j].key
}

proof fn lemma_sorted_unique(es: Seq<ArrivalRow>)
    requires
        entries_sorted(es),
    ensures
        forall|i: int, j: int|
            0 <= i < es.len() && 0 <= j < es.len() && es[i].key == es[j].key ==> i == j,
{
    assert forall|i: int, j: int|
        0 <= i < es.len() && 0 <= j < es.len() && es[i].key == es[j].key implies i == j by {
        if i < j {
            assert(es[i].key < es[j].key);
        } else if j < i {
            assert(es[j].key < es[i].key);
        }
    }
}

/// In a sorted row sequence, the row at index `i` is what the map stores
/// under its key.
proof fn lemma_stored_at(es: Seq<ArrivalRow>, i: int)
    requires
        entries_sorted(es),
        0 <= i < es.len(),
    ensures
        has_key(es, es[i].key),
        idx_of(es, es[i].key) == i,
        stored_of(es).dom().contains(es[i].key),
        stored_of(es)[es[i].key] == es[i].times@,
{
    lemma_sorted_unique(es);
    assert(has_key(es, es[i].key));
}

/// A sorted row sequence stores exactly one map entry per row.
proof fn lemma_stored_len(es: Seq<ArrivalRow>)
    requires
        entries_sorted(es),
    ensures
        stored_of(es).dom().finite(),
        stored_of(es).dom().len() == es.len(),
    decreases es.len(),
{
    lemma_sorted_unique(es);
    if es.len() == 0 {
        assert(stored_of(es).dom() =~= Set::<u64>::empty());
    } else {
        let head = es.drop_last();
        let last = es.last();
        lemma_stored_len(head);
        assert forall|k: u64| #[trigger] stored_of(es).dom().contains(k) implies stored_of(
            head,
        ).dom().contains(k) || k == last.key by {
            let i = idx_of(es, k);
            assert(0 <= i < es.len() && es[i].key == k);
            if i < es.len() - 1 {
                assert(head[i].key == k);
            }
        }
        assert forall|k: u64|
            stored_of(head).dom().contains(k) || k == last.key implies #[trigger] stored_of(
            es,
        ).dom().contains(k) by {
            if has_key(head, k) {
                let i = idx_of(head, k);
                assert(es[i].key == k);
            } else {
                assert(es[es.len() - 1].key == k);
            }
        }
        assert(stored_of(es).dom() =~= stored_of(head).dom().insert(last.key));
        if stored_of(head).dom().contains(last.key) {
            let i = idx_of(head, last.key);
            assert(es[i].key < last.key);
            assert(false);
        }
    }
}

/// Removing the row at `p` removes exactly its key from the stored map.
proof fn lemma_stored_remove(es0: Seq<ArrivalRow>, p: int)
    requires
        entries_sorted(es0),
        0 <= p < es0.len(),
    ensures
        entries_sorted(es0.remove(p)),
        forall|j: int| 0 <= j < p ==> es0.remove(p)[j] == es0[j],
        forall|j: int| p <= j < es0.len() - 1 ==> es0.remove(p)[j] == es0[j + 1],
        stored_of(es0.remove(p)) == stored_of(es0).remove(es0[p].key),
{
    let key = es0[p].key;
    let es1 = es0.remove(p);
    lemma_sorted_unique(es0);
    assert(es1.len() == es0.len() - 1);
    assert forall|j: int| 0 <= j < es1.len() implies es1[j] == es0[if j < p {
        j
    } else {
        j + 1
    }] by {}
    assert forall|i: int, j: int| 0 <= i < j < es1.len() implies es1[i].key < es1[j].key by {
        let i0: int = if i < p { i } else { i + 1 };
        let j0: int = if j < p { j } else { j + 1 };
        assert(es0[i0].key < es0[j0].key);
    }
    lemma_sorted_unique(es1);
    assert forall|k: u64| #[trigger] has_key(es1, k) implies has_key(es0, k) && k != key by {
        let i = idx_of(es1, k);
        assert(0 <= i < es1.len() && es1[i].key == k);
        let i0: int = if i < p { i } else { i + 1 };
        assert(es0[i0].key == k);
        assert(i0 != p);
    }
    assert forall|k: u64| has_key(es0, k) && k != key implies #[trigger] has_key(es1, k) by {
        let i0 = idx_of(es0, k);
        assert(0 <= i0 < es0.len() && es0[i0].key == k);
        assert(i0 != p);
        if i0 < p {
            assert(es1[i0].key == k);
        } else {
            assert(es1[i0 - 1].key == k);
        }
    }
    assert forall|k: u64| stored_of(es1).dom().contains(k) implies stored_of(es1)[k]
        == stored_of(es0)[k] by {
        let i = idx_of(es1, k);
        assert(0 <= i < es1.len() && es1[i].key == k);
        let i0: int = if i < p { i } else { i + 1 };
        assert(es1[i] == es0[i0]);
        lemma_stored_at(es0, i0);
    }
    assert(stored_of(es1) =~= stored_of(es0).remove(key));
}

/// Splicing a row carrying `key` into the gap at `p` binds exactly `key`
/// in the stored map.
proof fn lemma_stored_insert(es1: Seq<ArrivalRow>, es2: Seq<ArrivalRow>, p: int, key: u64)
    requires
        entries_sorted(es1),
        0 <= p <= es1.len(),
        forall|j: int| 0 <= j < p ==> (#[trigger] es1[j]).key < key,
        forall|j: int| p <= j < es1.len() ==> (#[trigger] es1[j]).key > key,
        es2.len() == es1.len() + 1,
        forall|j: int| 0 <= j < p ==> es2[j] == es1[j],
        0 <= p < es2.len() && es2[p].key == key,
        forall|j: int| p < j < es2.len() ==> es2[j] == es1[j - 1],
    ensures
        entries_sorted(es2),
        stored_of(es2) == stored_of(es1).insert(key, es2[p].times@),
{
    assert forall|i: int, j: int| 0 <= i < j < es2.len() implies es2[i].key < es2[j].key by {
        if j < p {
            assert(es1[i].key < es1[j].key);
        } else if j == p {
            assert(es2[i].key == es1[i].key);
        } else if i == p {
            assert(es2[j].key == es1[j - 1].key);
        } else if i < p {
            assert(es2[i].key == es1[i].key && es2[j].key == es1[j - 1].key);
            assert(es1[i].key < key);
            assert(es1[j - 1].key > key);
        } else {
            assert(es2[i].key == es1[i - 1].key && es2[j].key == es1[j - 1].key);
            assert(es1[i - 1].key < es1[j - 1].key);
        }
    }
    lemma_sorted_unique(es1);
    lemma_sorted_unique(es2);
    assert forall|k: u64| #[trigger] has_key(es2, k) implies has_key(es1, k) || k == key by {
        let i = idx_of(es2, k);
        assert(0 <= i < es2.len() && es2[i].key == k);
        if i < p {
            assert(es1[i].key == k);
        } else if i > p {
            assert(es1[i - 1].key == k);
        }
    }
    assert forall|k: u64| has_key(es1, k) || k == key implies #[trigger] has_key(es2, k) by {
        if has_key(es1, k) {
            let i = idx_of(es1, k);
            assert(0 <= i < es1.len() && es1[i].key == k);
            if i < p {
                assert(es2[i].key == k);
            } else {
                assert(es2[i + 1].key == k);
            }
        } else {
            assert(es2[p].key == k);
        }
    }
    assert forall|k: u64| stored_of(es2).dom().contains(k) implies stored_of(es2)[k]
        == stored_of(es1).insert(key, es2[p].times@)[k] by {
        let i = idx_of(es2, k);
        assert(0 <= i < es2.len() && es2[i].key == k);
        if k == key {
            assert(i == p);
        } else if i < p {
            lemma_stored_at(es1, i);
        } else {
            assert(i != p);
            assert(es2[i] == es1[i - 1]);
            lemma_stored_at(es1, i - 1);
        }
    }
    assert(stored_of(es2) =~= stored_of(es1).insert(key, es2[p].times@));
}

/// Dropping the first `p` rows of a sorted sequence that carries no key at
/// or below `key` beyond them removes exactly the stored keys at or below
/// `key`.
proof fn lemma_stored_skip(es1: Seq<ArrivalRow>, p: int, key: u64)
    requires
        entries_sorted(es1),
        0 <= p <= es1.len(),
        forall|j: int| 0 <= j < p ==> (#[trigger] es1[j]).key <= key,
        forall|j: int| p <= j < es1.len() ==> (#[trigger] es1[j]).key > key,
    ensures
        entries_sorted(es1.skip(p)),
        forall|j: int| 0 <= j < es1.len() - p ==> es1.skip(p)[j] == es1[j + p],
        stored_of(es1.skip(p)) == stored_of(es1).remove_keys(Set::new(|k: u64| k <= key)),
{
    let es2 = es1.skip(p);
    lemma_sorted_unique(es1);
    assert(es2.len() == es1.len() - p);
    assert forall|j: int| 0 <= j < es2.len() implies es2[j] == es1[j + p] by {}
    assert forall|i: int, j: int| 0 <= i < j < es2.len() implies es2[i].key < es2[j].key by {
        assert(es1[i + p].key < es1[j + p].key);
    }
    lemma_sorted_unique(es2);
    assert forall|k: u64| #[trigger] has_key(es2, k) implies has_key(es1, k) && k > key by {
        let i = idx_of(es2, k);
        assert(0 <= i < es2.len() && es2[i].key == k);
        assert(es1[i + p].key == k);
    }
    assert forall|k: u64| has_key(es1, k) && k > key implies #[trigger] has_key(es2, k) by {
        let i = idx_of(es1, k);
        assert(0 <= i < es1.len() && es1[i].key == k);
        assert(i >= p);
        assert(es2[i - p].key == k);
    }
    assert forall|k: u64| stored_of(es2).dom().contains(k) implies stored_of(es2)[k]
        == stored_of(es1)[k] by {
        let i = idx_of(es2, k);
        assert(0 <= i < es2.len() && es2[i].key == k);
        assert(es2[i] == es1[i + p]);
        lemma_stored_at(es1, i + p);
    }
    assert(stored_of(es2) =~= stored_of(es1).remove_keys(Set::new(|k: u64| k <= key)));
}

/// The correlator: arrival state per key for a fixed number of sources,
/// kept sorted by key.
pub struct Correlator {
    n_sources: usize,
    entries: Vec<ArrivalRow>,
}

impl Correlator {
    /// How many sources this correlator compares.
    pub closed spec fn sources(self) -> nat {
        self.n_sources as nat
    }

    /// The in-flight arrival state: for each stored key, the per-source
    /// timestamps recorded so far.
    pub closed spec fn stored(self) -> Map<u64, Seq<Option<u64>>> {
        stored_of(self.entries@)
    }

    /// Internal well-formedness: at least one source, every row as wide as
    /// the source set, keys strictly sorted.
    pub closed spec fn wf(self) -> bool {
        &&& self.n_sources >= 1
        &&& forall|i: int|
            0 <= i < self.entries@.len() ==> (#[trigger] self.entries@[i]).times@.len()
                == self.n_sources
        &&& entries_sorted(self.entries@)
    }

    /// A fresh correlator over `n_sources` sources, storing nothing.
    pub fn new(n_sources: usize) -> (c: Correlator)
        requires
            n_sources >= 1,
        ensures
            c.wf(),
            c.sources() == n_sources,
            c.stored() == Map::<u64, Seq<Option<u64>>>::empty(),
    {
        let c = Correlator { n_sources, entries: Vec::new() };
        proof {
            assert(c.stored() =~= Map::<u64, Seq<Option<u64>>>::empty());
        }
        c
    }

    /// The number of sources, as an executable value.
    pub fn source_count(&self) -> (n: usize)
        ensures
            n == self.sources(),
    {
        self.n_sources
    }

    /// The number of keys currently stored.
    pub fn len(&self) -> (n: usize)
        requires
            self.wf(),
        ensures
            n == self.stored().dom().len(),
    {
        proof {
            lemma_stored_len(self.entries@);
        }
        self.entries.len()
    }

    /// Whether any arrival state is stored for `key`.
    pub fn contains_key(&self, key: u64) -> (r: bool)
        requires
            self.wf(),
        ensures
            r == self.stored().dom().contains(key),
    {
        let ghost es = self.entries@;
        let mut i: usize = 0;
        while i < self.entries.len()
            invariant
                i <= es.len(),
                es == self.entries@,
                forall|j: int| 0 <= j < i ==> (#[trigger] es[j]).key != key,
            decreases es.len() - i,
        {
            if self.entries[i].key == key {
                proof {
                    assert(has_key(es, key));
                }
                return true;
            }
            i += 1;
        }
        proof {
            assert(!has_key(es, key));
        }
        false
    }

    /// Insert or overwrite the timestamp reported by `source` for `key`,
    /// creating the row if absent. If the row is then complete, return the
    /// comparison record with one delta per source in declared order, and
    /// evict every stored key at or below `key` — including rows that were
    /// still incomplete, trading their completeness for a memory bound.
    pub fn record(&mut self, source: usize, key: u64, at: u64) -> (r: Option<Completion>)
        requires
            old(self).wf(),
            source < old(self).sources(),
        ensures
            final(self).wf(),
            final(self).sources() == old(self).sources(),
            ({
                let row0 = if old(self).stored().dom().contains(key) {
                    old(self).stored()[key]
                } else {
                    empty_row(old(self).sources())
                };
                let row1 = row_update(row0, source as int, at);
                if row_complete(row1) {
                    &&& r matches Some(c) && c.key == key && c.deltas@ == deltas_of(row1)
                    &&& final(self).stored() == old(self).stored().remove_keys(
                        Set::new(|k: u64| k <= key),
                    )
                } else {
                    &&& r is None
                    &&& final(self).stored() == old(self).stored().insert(key, row1)
                }
            }),
            r is Some ==> forall|k: u64| final(self).stored().dom().contains(k) ==> k > key,
    {
        let ghost es0 = self.entries@;
        let ghost row0 = if old(self).stored().dom().contains(key) {
            old(self).stored()[key]
        } else {
            empty_row(old(self).sources())
        };

        // Position of the first row whose key is not below `key`.
        let mut p: usize = 0;
        while p < self.entries.len() && self.entries[p].key < key
            invariant
                p <= es0.len(),
                self.entries@ == es0,
                forall|j: int| 0 <= j < p ==> (#[trigger] es0[j]).key < key,
            decreases es0.len() - p,
        {
            p += 1;
        }

        proof {
            lemma_sorted_unique(es0);
            if !(p < es0.len() && es0[p as int].key == key) {
                assert forall|i: int| 0 <= i < es0.len() implies (#[trigger] es0[i]).key
                    != key by {
                    if i >= p {
                        assert(p < es0.len());
                        if i > p {
                            assert(es0[p as int].key < es0[i].key);
                        }
                    }
                }
                assert(!has_key(es0, key));
            }
        }

        // Take the row for `key` out (or make a fresh one).
        let mut row: ArrivalRow;
        if p < self.entries.len() && self.entries[p].key == key {
            proof {
                lemma_stored_at(es0, p as int);
                lemma_stored_remove(es0, p as int);
            }
            row = self.entries.remove(p);
        } else {
            let mut times: Vec<Option<u64>> = Vec::new();
            let mut i: usize = 0;
            while i < self.n_sources
                invariant
                    i <= self.n_sources,
                    times@ =~= empty_row(i as nat),
                decreases self.n_sources - i,
            {
                times.push(None);
                i += 1;
            }
            row = ArrivalRow { key, times };
        }

        // In both cases now: no row for `key` is left, everything before
        // `p` is below `key`, everything from `p` on is above it.
        let ghost es1 = self.entries@;
        proof {
            assert(row.times@ =~= row0);
            assert(entries_sorted(es1));
            assert(row0.len() == old(self).sources());
            assert forall|j: int| 0 <= j < es1.len() implies ((j < p ==> (#[trigger] es1[j]).key
                < key) && (j >= p ==> es1[j].key > key) && es1[j].times@.len() == old(
                self,
            ).sources()) by {
                if p < es0.len() && es0[p as int].key == key {
                    if j < p {
                        assert(es1[j] == es0[j]);
                    } else {
                        assert(es1[j] == es0[j + 1]);
                        assert(es0[p as int].key < es0[j + 1].key);
                    }
                } else {
                    assert(es1[j] == es0[j]);
                    if j >= p {
                        assert(es0[j].key != key);
                        if j > p {
                            assert(es0[p as int].key < es0[j].key);
                        }
                        assert(es0[j].key >= key);
                    }
                }
            }
        }

        row.times.set(source, Some(at));
        let ghost row1 = row.times@;
        proof {
            assert(row1 == row_update(row0, source as int, at));
        }

        let complete = row_all_some(&row.times);
        if complete {
            let deltas = compute_deltas(&row.times);
            // Eviction sweep: with the completed row already taken out,
            // dropping the first `p` rows removes exactly the stored keys
            // at or below `key`.
            let tail = self.entries.split_off(p);
            self.entries = tail;
            proof {
                lemma_stored_skip(es1, p as int, key);
                assert(self.entries@ =~= es1.skip(p as int));
                assert(self.stored() == stored_of(es1).remove_keys(Set::new(|k: u64| k <= key)));
                assert(self.stored() =~= old(self).stored().remove_keys(
                    Set::new(|k: u64| k <= key),
                ));
                assert forall|i: int| 0 <= i < self.entries@.len() implies (#[trigger] self
                    .entries@[i]).times@.len() == self.n_sources by {
                    assert(self.entries@[i] == es1[i + p]);
                }
            }
            Some(Completion { key, deltas })
        } else {
            self.entries.insert(p, row);
            proof {
                let es2 = self.entries@;
                assert(es2 == es1.insert(p as int, ArrivalRow { key, times: row.times }));
                assert forall|j: int| 0 <= j < es2.len() implies (j < p ==> es2[j] == es1[j]) && (j
                    > p ==> es2[j] == es1[j - 1]) by {}
                assert(es2[p as int].key == key && es2[p as int].times@ == row1);
                lemma_stored_insert(es1, es2, p as int, key);
                assert(self.stored() =~= old(self).stored().insert(key, row1));
                assert forall|i: int| 0 <= i < es2.len() implies (#[trigger] es2[i]).times@.len()
                    == self.n_sources by {}
            }
            None
        }
    }

    /// Feed one raw payload from `source`, stamped with the local receipt
    /// time `now`: normalize it and, if it carries a correlation event,
    /// record it. Unrelated payloads leave the store untouched; malformed
    /// ones report a protocol failure without touching it either.
    pub fn ingest(&mut self, source: usize, payload: &Payload, now: u64) -> (r: IngestOutcome)
        requires
            old(self).wf(),
            source < old(self).sources(),
        ensures
            final(self).wf(),
            final(self).sources() == old(self).sources(),
            *payload is Other ==> r is Skipped && final(self).stored() == old(self).stored(),
            *payload is Malformed ==> r == (IngestOutcome::Failed { kind: FailureKind::Protocol })
                && final(self).stored() == old(self).stored(),
            *payload matches Payload::Keyed { key } ==> ({
                let row0 = if old(self).stored().dom().contains(key) {
                    old(self).stored()[key]
                } else {
                    empty_row(old(self).sources())
                };
                let row1 = row_update(row0, source as int, now);
                if row_complete(row1) {
                    &&& r matches IngestOutcome::Completed { completion: c } && c.key == key
                        && c.deltas@ == deltas_of(row1)
                    &&& final(self).stored() == old(self).stored().remove_keys(
                        Set::new(|k: u64| k <= key),
                    )
                } else {
                    &&& r is Recorded
                    &&& final(self).stored() == old(self).stored().insert(key, row1)
                }
            }),
    {
        match normalize(payload, now) {
            Normalized::Event { key, at } => match self.record(source, key, at) {
                Some(completion) => IngestOutcome::Completed { completion },
                None => IngestOutcome::Recorded,
            },
            Normalized::Skip => IngestOutcome::Skipped,
            Normalized::Fail { kind } => IngestOutcome::Failed { kind },
        }
    }
}

/// Whether every slot of a row holds a timestamp.
fn row_all_some(times: &Vec<Option<u64>>) -> (b: bool)
    ensures
        b == row_complete(times@),
{
    let mut i: usize = 0;
    while i < times.len()
        invariant
            i <= times@.len(),
            forall|j: int| 0 <= j < i ==> times@[j] is Some,
        decreases times@.len() - i,
    {
        if times[i].is_none() {
            return false;
        }
        i += 1;
    }
    true
}

/// The per-source deltas of a complete row: each timestamp minus the
/// earliest one.
fn compute_deltas(times: &Vec<Option<u64>>) -> (ds: Vec<u64>)
    requires
        times@.len() >= 1,
        row_complete(times@),
    ensures
        ds@ == deltas_of(times@),
{
    let ghost ts = times_of(times@);
    let mut m: u64 = times[0].unwrap();
    let mut i: usize = 1;
    while i < times.len()
        invariant
            1 <= i <= times@.len(),
            row_complete(times@),
            ts == times_of(times@),
            m == seq_min(ts.take(i as int)),
        decreases times@.len() - i,
    {
        let t = times[i].unwrap();
        proof {
            assert(ts.take(i + 1 as int).drop_last() =~= ts.take(i as int));
            assert(ts.take(i + 1 as int).last() == ts[i as int]);
        }
        if t < m {
            m = t;
        }
        i += 1;
    }
    proof {
        assert(ts.take(times@.len() as int) =~= ts);
        lemma_seq_min(ts);
    }

    let mut ds: Vec<u64> = Vec::new();
    let mut i: usize = 0;
    while i < times.len()
        invariant
            i <= times@.len(),
            row_complete(times@),
            ts == times_of(times@),
            m == seq_min(ts),
            forall|j: int| 0 <= j < ts.len() ==> m <= ts[j],
            ds@.len() == i,
            forall|j: int| 0 <= j < i ==> ds@[j] == deltas_of(times@)[j],
        decreases times@.len() - i,
    {
        let t = times[i].unwrap();
        proof {
            assert(ts[i as int] == times@[i as int]->0);
        }
        ds.push(t - m);
        i += 1;
    }
    proof {
        assert(ds@ =~= deltas_of(times@));
    }
    ds
}

} // verus!
