//! The read cache: per-partition entries with hit/miss counters updated
//! atomically with each lookup, a derived (never stored) hit ratio, and a
//! capacity-bounded store whose eviction is deterministic for a fixed access
//! sequence: entries leave in insertion order, oldest first.

use vstd::prelude::*;
use crate::partition::clone_bytes;

verus! {

/// Composite key of one partition's cache state: stream, topic, partition.
#[derive(Clone, Copy, Debug, PartialEq, Eq, Structural)]
pub struct CacheKey {
    pub stream_id: u32,
    pub topic_id: u32,
    pub partition_id: u32,
}

/// A counter that sticks at its ceiling instead of wrapping.
pub open spec fn inc64(x: u64) -> u64 {
    if x == u64::MAX {
        u64::MAX
    } else {
        (x + 1) as u64
    }
}

/// Hit and miss counters of one partition's cache. The hit ratio is always
/// derived from these two, never stored, so it cannot drift; the counters
/// are never decremented except by constructing fresh ones.
#[derive(Clone, Copy, Debug, PartialEq, Eq, Structural)]
pub struct CacheMetrics {
    pub hits: u64,
    pub misses: u64,
}

impl CacheMetrics {
    /// Counters at zero.
    pub fn zero() -> (m: CacheMetrics)
        ensures
            m == (CacheMetrics { hits: 0, misses: 0 }),
    {
        CacheMetrics { hits: 0, misses: 0 }
    }

    /// These counters after one hit.
    pub open spec fn with_hit(self) -> CacheMetrics {
        CacheMetrics { hits: inc64(self.hits), misses: self.misses }
    }

    /// These counters after one miss.
    pub open spec fn with_miss(self) -> CacheMetrics {
        CacheMetrics { hits: self.hits, misses: inc64(self.misses) }
    }

    /// Count one hit.
    pub fn record_hit(&mut self)
        ensures
            *final(self) == old(self).with_hit(),
    {
        if self.hits < u64::MAX {
            self.hits = self.hits + 1;
        }
    }

    /// Count one miss.
    pub fn record_miss(&mut self)
        ensures
            *final(self) == old(self).with_miss(),
    {
        if self.misses < u64::MAX {
            self.misses = self.misses + 1;
        }
    }

    /// The derived hit ratio, in thousandths: `hits * 1000 / (hits + misses)`
    /// rounded down, and 0 when there has been no lookup at all.
    pub fn hit_ratio_permille(&self) -> (r: u64)
        ensures
            self.hits + self.misses == 0 ==> r == 0,
            self.hits + self.misses > 0
                ==> r == (self.hits * 1000) / (self.hits + self.misses),
    {
        if self.hits == 0 && self.misses == 0 {
            return 0;
        }
        let total: u128 = self.hits as u128 + self.misses as u128;
        let r = (self.hits as u128 * 1000) / total;
        proof {
            assert(r <= 1000) by (nonlinear_arith)
                requires
                    r == (self.hits as int * 1000) / (total as int),
                    total as int > 0,
                    self.hits as int <= total as int,
            ;
        }
        r as u64
    }
}

/// How a run of lookups, `true` for each hit, drives the counters.
pub open spec fn apply_lookups(m: CacheMetrics, pattern: Seq<bool>) -> CacheMetrics
    decreases pattern.len(),
{
    if pattern.len() == 0 {
        m
    } else {
        apply_lookups(
            if pattern[0] {
                m.with_hit()
            } else {
                m.with_miss()
            },
            pattern.drop_first(),
        )
    }
}

/// How many of a run of lookups were hits.
pub open spec fn count_hits(pattern: Seq<bool>) -> nat
    decreases pattern.len(),
{
    if pattern.len() == 0 {
        0
    } else {
        (if pattern[0] {
            1nat
        } else {
            0nat
        }) + count_hits(pattern.drop_first())
    }
}

proof fn lemma_apply_lookups(m: CacheMetrics, pattern: Seq<bool>)
    requires
        m.hits + count_hits(pattern) <= u64::MAX,
        m.misses + pattern.len() - count_hits(pattern) <= u64::MAX,
        count_hits(pattern) <= pattern.len(),
    ensures
        apply_lookups(m, pattern).hits == m.hits + count_hits(pattern),
        apply_lookups(m, pattern).misses == m.misses + pattern.len() - count_hits(pattern),
    decreases pattern.len(),
{
    if pattern.len() > 0 {
        lemma_count_hits_bound(pattern.drop_first());
        if pattern[0] {
            lemma_apply_lookups(m.with_hit(), pattern.drop_first());
        } else {
            lemma_apply_lookups(m.with_miss(), pattern.drop_first());
        }
    }
}

proof fn lemma_count_hits_bound(pattern: Seq<bool>)
    ensures
        count_hits(pattern) <= pattern.len(),
    decreases pattern.len(),
{
    if pattern.len() > 0 {
        lemma_count_hits_bound(pattern.drop_first());
    }
}

/// Cache metrics accuracy: after any run of `N` lookups on one key, of which
/// `H` were hits, the counters read exactly `hits == H` and
/// `misses == N - H`; the hit ratio then derives from those two alone.
pub proof fn lemma_metrics_accuracy(pattern: Seq<bool>)
    requires
        pattern.len() < u64::MAX,
    ensures
        apply_lookups(CacheMetrics { hits: 0, misses: 0 }, pattern).hits
            == count_hits(pattern),
        apply_lookups(CacheMetrics { hits: 0, misses: 0 }, pattern).misses
            == pattern.len() - count_hits(pattern),
    decreases pattern.len(),
{
    lemma_count_hits_bound(pattern);
    lemma_apply_lookups(CacheMetrics { hits: 0, misses: 0 }, pattern);
}

/// Whether some pair in the run carries this key.
pub open spec fn has_key<T>(s: Seq<(CacheKey, T)>, key: CacheKey) -> bool {
    exists|i: int| 0 <= i < s.len() && (#[trigger] s[i].0) == key
}

/// The value paired with this key; meaningful only when `has_key` holds and
/// keys are unique.
pub open spec fn value_of<T>(s: Seq<(CacheKey, T)>, key: CacheKey) -> T {
    s[choose|i: int| 0 <= i < s.len() && (#[trigger] s[i].0) == key].1
}

/// No two pairs in the run carry the same key.
pub open spec fn unique_keys<T>(s: Seq<(CacheKey, T)>) -> bool {
    forall|i: int, j: int| 0 <= i < j < s.len()
        ==> (#[trigger] s[i].0) != (#[trigger] s[j].0)
}

/// The cache layer: bounded entry store plus per-key metrics. Lookups record
/// a hit or a miss against the key's counters in the same exclusive access
/// as the lookup itself, so no concurrent reader can observe the counters
/// ahead of or behind the lookups that produced them.
#[derive(Debug)]
pub struct PartitionCache {
    /// Most entries held at once; inserting beyond it evicts the oldest.
    pub capacity: usize,
    /// Cached payloads in insertion order, oldest first, keys unique.
    pub entries: Vec<(CacheKey, Vec<u8>)>,
    /// Hit/miss counters per key; they outlive eviction of the entry.
    pub metrics: Vec<(CacheKey, CacheMetrics)>,
}

impl PartitionCache {
    /// Well-formedness: bounded entries and unique keys on both runs.
    pub open spec fn inv(self) -> bool {
        &&& self.capacity >= 1
        &&& self.entries@.len() <= self.capacity
        &&& unique_keys(self.entries@)
        &&& unique_keys(self.metrics@)
    }

    /// An empty cache with the given capacity.
    pub fn new(capacity: usize) -> (c: PartitionCache)
        requires
            capacity >= 1,
        ensures
            c.inv(),
            c.capacity == capacity,
            c.entries@ =~= Seq::<(CacheKey, Vec<u8>)>::empty(),
            c.metrics@ =~= Seq::<(CacheKey, CacheMetrics)>::empty(),
    {
        PartitionCache { capacity, entries: Vec::new(), metrics: Vec::new() }
    }

    /// Index of the entry with this key, if one is cached.
    fn find_entry(&self, key: CacheKey) -> (r: Option<usize>)
        ensures
            match r {
                Some(i) => i < self.entries@.len() && self.entries@[i as int].0 == key,
                None => !has_key(self.entries@, key),
            },
    {
        let mut i: usize = 0;
        while i < self.entries.len()
            invariant
                i <= self.entries@.len(),
                forall|k: int| 0 <= k < i ==> (#[trigger] self.entries@[k].0) != key,
            decreases self.entries@.len() - i,
        {
            if self.entries[i].0.stream_id == key.stream_id
                && self.entries[i].0.topic_id == key.topic_id
                && self.entries[i].0.partition_id == key.partition_id {
                return Some(i);
            }
            i += 1;
        }
        None
    }

    /// Index of the metrics slot with this key, if the key was ever looked up.
    fn find_metric(&self, key: CacheKey) -> (r: Option<usize>)
        ensures
            match r {
                Some(i) => i < self.metrics@.len() && self.metrics@[i as int].0 == key,
                None => !has_key(self.metrics@, key),
            },
    {
        let mut i: usize = 0;
        while i < self.metrics.len()
            invariant
                i <= self.metrics@.len(),
                forall|k: int| 0 <= k < i ==> (#[trigger] self.metrics@[k].0) != key,
            decreases self.metrics@.len() - i,
        {
            if self.metrics[i].0.stream_id == key.stream_id
                && self.metrics[i].0.topic_id == key.topic_id
                && self.metrics[i].0.partition_id == key.partition_id {
                return Some(i);
            }
            i += 1;
        }
        None
    }

    /// Record a hit or a miss against this key's counters, creating the
    /// counters at zero on their first lookup.
    fn bump_metric(&mut self, key: CacheKey, hit: bool)
        requires
            old(self).inv(),
        ensures
            final(self).inv(),
            final(self).entries@ == old(self).entries@,
            final(self).capacity == old(self).capacity,
            has_key(old(self).metrics@, key) ==> exists|i: int|
                0 <= i < old(self).metrics@.len()
                && (#[trigger] old(self).metrics@[i].0) == key
                && final(self).metrics@ == old(self).metrics@.update(i, (key,
                    if hit {
                        old(self).metrics@[i].1.with_hit()
                    } else {
                        old(self).metrics@[i].1.with_miss()
                    })),
            !has_key(old(self).metrics@, key) ==> final(self).metrics@
                == old(self).metrics@.push((key,
                    if hit {
                        (CacheMetrics { hits: 1, misses: 0 })
                    } else {
                        (CacheMetrics { hits: 0, misses: 1 })
                    })),
    {
        let slot = self.find_metric(key);
        match slot {
            Some(i) => {
                let mut m = self.metrics[i].1;
                if hit {
                    m.record_hit();
                } else {
                    m.record_miss();
                }
                self.metrics[i] = (key, m);
                proof {
                    assert forall|a: int, b: int| 0 <= a < b < self.metrics@.len()
                        implies (#[trigger] self.metrics@[a].0)
                            != (#[trigger] self.metrics@[b].0) by {
                        assert(old(self).metrics@[a].0 != old(self).metrics@[b].0);
                    }
                }
            },
            None => {
                let mut m = CacheMetrics::zero();
                if hit {
                    m.record_hit();
                } else {
                    m.record_miss();
                }
                self.metrics.push((key, m));
                proof {
                    assert forall|a: int, b: int| 0 <= a < b < self.metrics@.len()
                        implies (#[trigger] self.metrics@[a].0)
                            != (#[trigger] self.metrics@[b].0) by {
                        if b < self.metrics@.len() - 1 {
                            assert(old(self).metrics@[a].0 != old(self).metrics@[b].0);
                        } else {
                            assert(self.metrics@[b].0 == key);
                            assert(self.metrics@[a] == old(self).metrics@[a]);
                        }
                    }
                }
            },
        }
    }

    /// Look this key up. The value comes back exactly as cached, and the
    /// key's counters take one hit or one miss — in the same exclusive
    /// access, so the counters never run ahead of or behind the lookups.
    /// The entries themselves are untouched.
    pub fn get(&mut self, key: CacheKey) -> (r: Option<Vec<u8>>)
        requires
            old(self).inv(),
        ensures
            final(self).inv(),
            final(self).entries@ == old(self).entries@,
            final(self).capacity == old(self).capacity,
            r matches Some(v) ==> has_key(old(self).entries@, key)
                && v@ == value_of(old(self).entries@, key)@,
            r is None ==> !has_key(old(self).entries@, key),
            ({
                let hit = has_key(old(self).entries@, key);
                &&& (has_key(old(self).metrics@, key) ==> exists|i: int|
                    0 <= i < old(self).metrics@.len()
                    && (#[trigger] old(self).metrics@[i].0) == key
                    && final(self).metrics@ == old(self).metrics@.update(i, (key,
                        if hit {
                            old(self).metrics@[i].1.with_hit()
                        } else {
                            old(self).metrics@[i].1.with_miss()
                        })))
                &&& (!has_key(old(self).metrics@, key) ==> final(self).metrics@
                    == old(self).metrics@.push((key,
                        if hit {
                            (CacheMetrics { hits: 1, misses: 0 })
                        } else {
                            (CacheMetrics { hits: 0, misses: 1 })
                        })))
            }),
    {
        let slot = self.find_entry(key);
        match slot {
            Some(i) => {
                let value = clone_bytes(&self.entries[i].1);
                self.bump_metric(key, true);
                proof {
                    let j = choose|j: int| 0 <= j < self.entries@.len()
                        && (#[trigger] self.entries@[j].0) == key;
                    assert(j == i);
                }
                Some(value)
            },
            None => {
                self.bump_metric(key, false);
                None
            },
        }
    }

    /// Insert or overwrite this key's entry. An existing key keeps its slot;
    /// a new key goes to the back, and if the cache is full the oldest entry
    /// leaves first. Metrics are untouched: an insertion is not a lookup.
    pub fn put(&mut self, key: CacheKey, value: Vec<u8>)
        requires
            old(self).inv(),
        ensures
            final(self).inv(),
            final(self).metrics@ == old(self).metrics@,
            final(self).capacity == old(self).capacity,
            has_key(old(self).entries@, key) ==> exists|i: int|
                0 <= i < old(self).entries@.len()
                && (#[trigger] old(self).entries@[i].0) == key
                && final(self).entries@ == old(self).entries@.update(i, (key, value)),
            !has_key(old(self).entries@, key)
                && old(self).entries@.len() < old(self).capacity
                ==> final(self).entries@ == old(self).entries@.push((key, value)),
            !has_key(old(self).entries@, key)
                && old(self).entries@.len() == old(self).capacity
                ==> final(self).entries@
                    == old(self).entries@.drop_first().push((key, value)),
    {
        let slot = self.find_entry(key);
        match slot {
            Some(i) => {
                self.entries[i] = (key, value);
                proof {
                    assert forall|a: int, b: int| 0 <= a < b < self.entries@.len()
                        implies (#[trigger] self.entries@[a].0)
                            != (#[trigger] self.entries@[b].0) by {
                        assert(old(self).entries@[a].0 != old(self).entries@[b].0);
                    }
                }
            },
            None => {
                if self.entries.len() == self.capacity {
                    let _evicted = self.entries.remove(0);
                    proof {
                        assert(self.entries@ =~= old(self).entries@.drop_first());
                        assert forall|a: int, b: int| 0 <= a < b < self.entries@.len()
                            implies (#[trigger] self.entries@[a].0)
                                != (#[trigger] self.entries@[b].0) by {
                            assert(old(self).entries@[a + 1].0
                                != old(self).entries@[b + 1].0);
                        }
                    }
                }
                let ghost mid = self.entries@;
                self.entries.push((key, value));
                proof {
                    assert forall|a: int, b: int| 0 <= a < b < self.entries@.len()
                        implies (#[trigger] self.entries@[a].0)
                            != (#[trigger] self.entries@[b].0) by {
                        if b < self.entries@.len() - 1 {
                            assert(mid[a].0 != mid[b].0);
                        } else {
                            assert(self.entries@[b].0 == key);
                            assert(self.entries@[a] == mid[a]);
                            assert(!has_key(old(self).entries@, key));
                        }
                    }
                }
            },
        }
    }
}

} // verus!
