//! Payload cache and lock outcomes of the per-chunk locks.
use quick_cache::sync::{Cache, DefaultLifecycle};
use quick_cache::{DefaultHashBuilder, UnitWeighter};
use vstd::prelude::*;
use crate::lifecycle::error::{LifecycleError, LifecycleErrorModel};
use crate::lifecycle::handler::{CacheHint, LockPolicy};
use crate::metrics::{LatencySummary, LifecycleMetrics, LifecycleMetricsSnapshot};
use crate::storage::{StoreError, StoreErrorModel};
use crate::types::{Chunk, ChunkId, ChunkModel};

verus! {

/// `quick_cache::sync::Cache`, carried as it is.
#[verifier::external_type_specification]
#[verifier::external_body]
#[verifier::reject_recursive_types(Key)]
#[verifier::reject_recursive_types(Val)]
#[verifier::reject_recursive_types(We)]
#[verifier::reject_recursive_types(B)]
#[verifier::reject_recursive_types(L)]
pub struct ExCache<Key, Val, We, B, L>(Cache<Key, Val, We, B, L>);

/// `quick_cache::UnitWeighter`, carried as it is.
#[verifier::external_type_specification]
#[verifier::external_body]
pub struct ExUnitWeighter(UnitWeighter);

/// `quick_cache::DefaultHashBuilder`, carried as it is.
#[verifier::external_type_specification]
#[verifier::external_body]
pub struct ExDefaultHashBuilder(DefaultHashBuilder);

/// `quick_cache::sync::DefaultLifecycle`, carried as it is.
#[verifier::external_type_specification]
#[verifier::external_body]
#[verifier::reject_recursive_types(Key)]
#[verifier::reject_recursive_types(Val)]
pub struct ExDefaultLifecycle<Key, Val>(DefaultLifecycle<Key, Val>);

/// What a payload cache holds: record by high and low half of the chunk ID.
pub uninterp spec fn cached_records(cache: Cache<(u64, u64), Chunk>) -> Map<(u64, u64), ChunkModel>;

/// The number of records that a payload cache was made for.
pub uninterp spec fn cache_limit(cache: Cache<(u64, u64), Chunk>) -> usize;

/// Whether one more record finds room without another leaving. The cache is
/// split into parts, each of which has room for its share of the limit, and for
/// no fewer than thirty-two records unless the limit itself is lower.
pub open spec fn has_spare_room(records: nat, limit: usize) -> bool {
    records < limit && records < 32
}

/// `Cache::new`: the cache is empty and keeps its limit.
#[verifier::external_body]
fn new_cache(capacity: usize) -> (r: Cache<(u64, u64), Chunk>)
    ensures
        cached_records(r) == (Map::<(u64, u64), ChunkModel>::empty()),
        cache_limit(r) == capacity,
{
    Cache::new(capacity)
}

/// `Cache::get`: a copy of the record where it is held.
#[verifier::external_body]
fn cache_get(cache: &Cache<(u64, u64), Chunk>, key: (u64, u64)) -> (r: Option<Chunk>)
    ensures
        match r {
            Some(chunk) => cached_records(*cache).dom().contains(key) && chunk@ == cached_records(
                *cache,
            )[key],
            None => !cached_records(*cache).dom().contains(key),
        },
{
    cache.get(&key)
}

/// `Cache::insert`: what is held afterwards was held before or is the new
/// record; an older record of the key is gone. Where the key was held, or the
/// records are so few that no part of the cache is full, nothing leaves and the
/// new record is held. Otherwise records may leave to make room, and for a key
/// that left before the new record may be among them: which ones is left open.
#[verifier::external_body]
fn cache_insert(cache: &mut Cache<(u64, u64), Chunk>, key: (u64, u64), chunk: Chunk)
    ensures
        cached_records(*final(cache)).submap_of(
            cached_records(*old(cache)).insert(key, chunk@),
        ),
        cached_records(*old(cache)).dom().contains(key) || has_spare_room(
            cached_records(*old(cache)).dom().len(),
            cache_limit(*old(cache)),
        ) ==> cached_records(*final(cache)) == cached_records(*old(cache)).insert(key, chunk@),
        cache_limit(*final(cache)) == cache_limit(*old(cache)),
{
    cache.insert(key, chunk);
}

/// `Cache::remove`: the record of the key leaves and is handed out.
#[verifier::external_body]
fn cache_remove(cache: &mut Cache<(u64, u64), Chunk>, key: (u64, u64)) -> (r: Option<Chunk>)
    ensures
        cached_records(*final(cache)) == cached_records(*old(cache)).remove(key),
        cache_limit(*final(cache)) == cache_limit(*old(cache)),
        match r {
            Some(chunk) => cached_records(*old(cache)).dom().contains(key) && chunk@
                == cached_records(*old(cache))[key],
            None => !cached_records(*old(cache)).dom().contains(key),
        },
{
    cache.remove(&key).map(|entry| entry.1)
}

/// `Cache::len`: the number of records held.
#[verifier::external_body]
fn cache_size(cache: &Cache<(u64, u64), Chunk>) -> (r: usize)
    ensures
        r == cached_records(*cache).dom().len(),
{
    cache.len()
}

/// `Cache::iter`: every key held comes once; the order is left open.
#[verifier::external_body]
fn cache_keys(cache: &Cache<(u64, u64), Chunk>) -> (r: Vec<(u64, u64)>)
    ensures
        r@.no_duplicates() && r@.to_set() == cached_records(*cache).dom(),
{
    cache.iter().map(|entry| entry.0).collect()
}

/// The key of a chunk.
pub open spec fn chunk_slot(chunk_id: ChunkId) -> (u64, u64) {
    (chunk_id.high, chunk_id.low)
}

/// The records after one was put into a cache with a limit: it replaces an older
/// record of its key, and it is held where the key was held before or there was
/// room. Others may have left only where there was not.
pub open spec fn holds_new_record(
    before: Map<(u64, u64), ChunkModel>,
    after: Map<(u64, u64), ChunkModel>,
    limit: usize,
    key: (u64, u64),
    record: ChunkModel,
) -> bool {
    &&& after.submap_of(before.insert(key, record))
    &&& before.dom().contains(key) || has_spare_room(before.dom().len(), limit) ==> after
        == before.insert(key, record)
}

/// A chunk under its lock, with the latest record that is known.
#[derive(Debug)]
pub struct ChunkGuard {
    pub chunk: Option<Chunk>,
    pub hint: CacheHint,
    pub chunk_id: ChunkId,
}

impl ChunkGuard {
    /// The record as a model.
    pub open spec fn record(&self) -> Option<ChunkModel> {
        match self.chunk {
            Some(chunk) => Some(chunk@),
            None => None,
        }
    }

    /// The latest chunk record; none for a chunk that is being created.
    pub fn chunk(&self) -> (r: Option<&Chunk>)
        ensures
            match r {
                Some(chunk) => self.record() == Some(chunk@),
                None => self.record() is None,
            },
    {
        match &self.chunk {
            Some(chunk) => Some(chunk),
            None => None,
        }
    }

    /// Take over a record that was persisted. It enters the cache unless the
    /// hint says otherwise.
    pub fn refresh(&mut self, locks: &mut ChunkLockMap, chunk: Chunk)
        ensures
            final(self).record() == Some(chunk@),
            final(self).hint == old(self).hint,
            final(self).chunk_id == old(self).chunk_id,
            old(self).hint == CacheHint::Cache ==> holds_new_record(
                old(locks)@,
                final(locks)@,
                old(locks).limit(),
                chunk_slot(old(self).chunk_id),
                chunk@,
            ),
            old(self).hint == CacheHint::NoCache ==> final(locks)@ == old(locks)@,
            final(locks).counters() == old(locks).counters(),
            final(locks).threshold_us() == old(locks).threshold_us(),
            final(locks).limit() == old(locks).limit(),
    {
        if self.hint == CacheHint::Cache {
            locks.populate_cache(&self.chunk_id, chunk.clone());
        }
        self.chunk = Some(chunk);
    }
}

/// Payload cache of the per-chunk locks, and their counters.
pub struct ChunkLockMap {
    chunks: Cache<(u64, u64), Chunk>,
    metrics: LifecycleMetrics,
    hold_warn_threshold_us: u64,
}

impl View for ChunkLockMap {
    type V = Map<(u64, u64), ChunkModel>;

    closed spec fn view(&self) -> Map<(u64, u64), ChunkModel> {
        cached_records(self.chunks)
    }
}

/// The pair's bucket lies in the range.
pub open spec fn in_range(pair: (ChunkId, u16), bucket_start: u16, bucket_end: u16) -> bool {
    bucket_start <= pair.1 <= bucket_end
}

/// The records without those of the pairs in the range.
pub open spec fn without_range(
    records: Map<(u64, u64), ChunkModel>,
    pairs: Seq<(ChunkId, u16)>,
    bucket_start: u16,
    bucket_end: u16,
) -> Map<(u64, u64), ChunkModel>
    decreases pairs.len(),
{
    if pairs.len() == 0 {
        records
    } else {
        let front = without_range(records, pairs.drop_last(), bucket_start, bucket_end);
        if in_range(pairs.last(), bucket_start, bucket_end) {
            front.remove(chunk_slot(pairs.last().0))
        } else {
            front
        }
    }
}

/// Number of records that leave with the pairs in the range.
pub open spec fn range_hits(
    records: Map<(u64, u64), ChunkModel>,
    pairs: Seq<(ChunkId, u16)>,
    bucket_start: u16,
    bucket_end: u16,
) -> nat
    decreases pairs.len(),
{
    if pairs.len() == 0 {
        0
    } else {
        let front = without_range(records, pairs.drop_last(), bucket_start, bucket_end);
        let hits = range_hits(records, pairs.drop_last(), bucket_start, bucket_end);
        if in_range(pairs.last(), bucket_start, bucket_end) && front.dom().contains(
            chunk_slot(pairs.last().0),
        ) {
            hits + 1
        } else {
            hits
        }
    }
}

/// Counter after so many single increments.
pub open spec fn counted(start: u64, times: nat) -> u64
    decreases times,
{
    if times == 0 {
        start
    } else {
        counted(start, (times - 1) as nat).wrapping_add(1)
    }
}

proof fn lemma_range_hits(
    records: Map<(u64, u64), ChunkModel>,
    pairs: Seq<(ChunkId, u16)>,
    bucket_start: u16,
    bucket_end: u16,
)
    ensures
        range_hits(records, pairs, bucket_start, bucket_end) <= pairs.len(),
    decreases pairs.len(),
{
    if pairs.len() > 0 {
        lemma_range_hits(records, pairs.drop_last(), bucket_start, bucket_end);
    }
}

impl ChunkLockMap {
    /// Lock and cache counters.
    pub closed spec fn counters(&self) -> LifecycleMetrics {
        self.metrics
    }

    /// Number of records that the cache was made for.
    pub closed spec fn limit(&self) -> usize {
        cache_limit(self.chunks)
    }

    /// Hold time above which a lock is reported.
    pub closed spec fn threshold_us(&self) -> u64 {
        self.hold_warn_threshold_us
    }

    /// An empty cache of the given capacity.
    pub fn new(cache_capacity: usize, hold_warn_threshold_us: u64) -> (r: Self)
        ensures
            r@ == Map::<(u64, u64), ChunkModel>::empty(),
            r.counters() == (LifecycleMetrics {
                lock_timeout_count: 0,
                lock_busy_count: 0,
                cache_hit_count: 0,
                cache_miss_count: 0,
                reap_idle_count: 0,
                reap_idle_entries_removed: 0,
                invalidate_count: 0,
            }),
            r.threshold_us() == hold_warn_threshold_us,
            r.limit() == cache_capacity,
    {
        ChunkLockMap {
            chunks: new_cache(cache_capacity),
            metrics: LifecycleMetrics::new(),
            hold_warn_threshold_us,
        }
    }

    /// What an attempt at the lock comes to under a policy.
    pub fn acquire_lock(&mut self, policy: LockPolicy, acquired: bool) -> (r: Result<
        (),
        LifecycleError,
    >)
        ensures
            final(self)@ == old(self)@,
            final(self).threshold_us() == old(self).threshold_us(),
            final(self).limit() == old(self).limit(),
            if acquired {
                r is Ok && final(self).counters() == old(self).counters()
            } else {
                match policy {
                    LockPolicy::TryLock => r matches Err(e) && e@ == LifecycleErrorModel::LockBusy
                        && final(self).counters() == (LifecycleMetrics {
                        lock_busy_count: old(self).counters().lock_busy_count.wrapping_add(1),
                        ..old(self).counters()
                    }),
                    LockPolicy::Wait(_) => r matches Err(e) && e@ == LifecycleErrorModel::LockTimeout
                        && final(self).counters() == (LifecycleMetrics {
                        lock_timeout_count: old(self).counters().lock_timeout_count.wrapping_add(1),
                        ..old(self).counters()
                    }),
                }
            },
    {
        if acquired {
            return Ok(());
        }
        match policy {
            LockPolicy::TryLock => {
                self.metrics.record_lock_busy();
                Err(LifecycleError::LockBusy)
            },
            LockPolicy::Wait(_) => {
                self.metrics.record_lock_timeout();
                Err(LifecycleError::LockTimeout)
            },
        }
    }

    /// Serve the record of a locked chunk from the cache, unless the hint asks
    /// for the store. Where nothing is served the caller loads the record and
    /// goes on with `admit_loaded`.
    pub fn acquire(&mut self, chunk_id: &ChunkId, hint: CacheHint) -> (r: Option<ChunkGuard>)
        ensures
            final(self)@ == old(self)@,
            final(self).threshold_us() == old(self).threshold_us(),
            final(self).limit() == old(self).limit(),
            r is Some <==> hint == CacheHint::Cache && old(self)@.dom().contains(
                chunk_slot(*chunk_id),
            ),
            match r {
                Some(guard) => guard.record() == Some(old(self)@[chunk_slot(*chunk_id)])
                    && guard.hint == hint && guard.chunk_id == *chunk_id && final(self).counters()
                    == (LifecycleMetrics {
                    cache_hit_count: old(self).counters().cache_hit_count.wrapping_add(1),
                    ..old(self).counters()
                }),
                None => final(self).counters() == (LifecycleMetrics {
                    cache_miss_count: old(self).counters().cache_miss_count.wrapping_add(1),
                    ..old(self).counters()
                }),
            },
    {
        if hint == CacheHint::NoCache {
            self.metrics.record_cache_miss();
            return None;
        }
        match cache_get(&self.chunks, (chunk_id.high, chunk_id.low)) {
            Some(chunk) => {
                self.metrics.record_cache_hit();
                Some(ChunkGuard { chunk: Some(chunk), hint, chunk_id: *chunk_id })
            },
            None => {
                self.metrics.record_cache_miss();
                None
            },
        }
    }

    /// Take a record that was loaded for a locked chunk.
    pub fn admit_loaded(
        &mut self,
        chunk_id: &ChunkId,
        hint: CacheHint,
        loaded: Result<Chunk, StoreError>,
    ) -> (r: Result<ChunkGuard, LifecycleError>)
        ensures
            final(self).counters() == old(self).counters(),
            final(self).threshold_us() == old(self).threshold_us(),
            final(self).limit() == old(self).limit(),
            match loaded {
                Ok(chunk) => r matches Ok(guard) && guard.record() == Some(chunk@) && guard.hint
                    == hint && guard.chunk_id == *chunk_id && (if hint == CacheHint::Cache {
                    holds_new_record(
                        old(self)@,
                        final(self)@,
                        old(self).limit(),
                        chunk_slot(*chunk_id),
                        chunk@,
                    )
                } else {
                    final(self)@ == old(self)@
                }),
                Err(error) => r matches Err(e) && e@ == (if error@ == StoreErrorModel::ChunkNotFound {
                    LifecycleErrorModel::ChunkNotFound
                } else {
                    LifecycleErrorModel::Storage(error@)
                }) && final(self)@ == old(self)@,
            },
    {
        match loaded {
            Ok(chunk) => {
                if hint == CacheHint::Cache {
                    self.populate_cache(chunk_id, chunk.clone());
                }
                Ok(ChunkGuard { chunk: Some(chunk), hint, chunk_id: *chunk_id })
            },
            Err(StoreError::ChunkNotFound) => Err(LifecycleError::ChunkNotFound),
            Err(error) => Err(LifecycleError::Storage(error)),
        }
    }

    /// A locked chunk that is about to be created: nothing is loaded for it.
    pub fn acquire_for_create(chunk_id: &ChunkId, hint: CacheHint) -> (r: ChunkGuard)
        ensures
            r.record() is None,
            r.hint == hint,
            r.chunk_id == *chunk_id,
    {
        ChunkGuard { chunk: None, hint, chunk_id: *chunk_id }
    }

    /// Put a record into the cache directly.
    pub fn populate_cache(&mut self, chunk_id: &ChunkId, chunk: Chunk)
        ensures
            holds_new_record(
                old(self)@,
                final(self)@,
                old(self).limit(),
                chunk_slot(*chunk_id),
                chunk@,
            ),
            final(self).counters() == old(self).counters(),
            final(self).threshold_us() == old(self).threshold_us(),
            final(self).limit() == old(self).limit(),
    {
        cache_insert(&mut self.chunks, (chunk_id.high, chunk_id.low), chunk);
    }

    /// Account for idle locks that were dropped.
    pub fn reap_idle(&mut self, before: usize, after: usize)
        ensures
            final(self)@ == old(self)@,
            final(self).threshold_us() == old(self).threshold_us(),
            final(self).limit() == old(self).limit(),
            final(self).counters() == (LifecycleMetrics {
                reap_idle_count: old(self).counters().reap_idle_count.wrapping_add(1),
                reap_idle_entries_removed: old(self).counters().reap_idle_entries_removed.wrapping_add(
                    if before >= after {
                        (before - after) as u64
                    } else {
                        0
                    },
                ),
                ..old(self).counters()
            }),
    {
        let removed: u64 = if before >= after {
            (before - after) as u64
        } else {
            0
        };
        self.metrics.record_reap_idle(removed);
    }

    /// Invalidate a single chunk.
    pub fn invalidate_chunk(&mut self, chunk_id: &ChunkId) -> (r: bool)
        ensures
            r == old(self)@.dom().contains(chunk_slot(*chunk_id)),
            final(self)@ == old(self)@.remove(chunk_slot(*chunk_id)),
            final(self).counters() == (if r {
                LifecycleMetrics {
                    invalidate_count: old(self).counters().invalidate_count.wrapping_add(1),
                    ..old(self).counters()
                }
            } else {
                old(self).counters()
            }),
            final(self).threshold_us() == old(self).threshold_us(),
            final(self).limit() == old(self).limit(),
    {
        match cache_remove(&mut self.chunks, (chunk_id.high, chunk_id.low)) {
            Some(_) => {
                self.metrics.record_invalidate();
                true
            },
            None => false,
        }
    }

    /// The chunks in the cache, in some order.
    pub fn cached_ids(&self) -> (r: Vec<ChunkId>)
        ensures
            forall|id: ChunkId|
                r@.contains(id) <==> #[trigger] self@.dom().contains(chunk_slot(id)),
    {
        let keys = cache_keys(&self.chunks);
        let mut ids: Vec<ChunkId> = Vec::new();
        let mut i: usize = 0;
        while i < keys.len()
            invariant
                i <= keys.len(),
                ids@.len() == i,
                forall|j: int| 0 <= j < i ==> chunk_slot(#[trigger] ids@[j]) == keys@[j],
            decreases keys.len() - i,
        {
            ids.push(ChunkId { high: keys[i].0, low: keys[i].1 });
            i = i + 1;
        }
        proof {
            assert forall|id: ChunkId|
                ids@.contains(id) <==> #[trigger] self@.dom().contains(chunk_slot(id)) by {
                if ids@.contains(id) {
                    let j = choose|j: int| 0 <= j < ids@.len() && ids@[j] == id;
                    assert(keys@.to_set().contains(keys@[j]));
                }
                if self@.dom().contains(chunk_slot(id)) {
                    assert(keys@.to_set().contains(chunk_slot(id)));
                    let j = choose|j: int| 0 <= j < keys@.len() && keys@[j] == chunk_slot(id);
                    assert(chunk_slot(ids@[j]) == chunk_slot(id));
                    assert(ids@[j] == id);
                }
            }
        }
        ids
    }

    /// Invalidate the chunks whose bucket lies in `[bucket_start, bucket_end]`,
    /// given the buckets of the cached chunks. Returns how many left.
    pub fn invalidate_range(
        &mut self,
        buckets: &[(ChunkId, u16)],
        bucket_start: u16,
        bucket_end: u16,
    ) -> (r: u32)
        requires
            buckets@.len() <= u32::MAX,
        ensures
            final(self)@ == without_range(old(self)@, buckets@, bucket_start, bucket_end),
            r == range_hits(old(self)@, buckets@, bucket_start, bucket_end),
            final(self).counters() == (LifecycleMetrics {
                invalidate_count: counted(old(self).counters().invalidate_count, r as nat),
                ..old(self).counters()
            }),
            final(self).threshold_us() == old(self).threshold_us(),
            final(self).limit() == old(self).limit(),
    {
        let ghost start = self@;
        let ghost first = self.metrics;
        let mut count: u32 = 0;
        let mut i: usize = 0;
        assert(buckets@.take(0) =~= Seq::<(ChunkId, u16)>::empty());
        while i < buckets.len()
            invariant
                i <= buckets.len(),
                buckets@.len() <= u32::MAX,
                start == old(self)@,
                first == old(self).counters(),
                self@ == without_range(start, buckets@.take(i as int), bucket_start, bucket_end),
                count == range_hits(start, buckets@.take(i as int), bucket_start, bucket_end),
                count <= i,
                self.counters() == (LifecycleMetrics {
                    invalidate_count: counted(first.invalidate_count, count as nat),
                    ..first
                }),
                self.threshold_us() == old(self).threshold_us(),
                self.limit() == old(self).limit(),
            decreases buckets.len() - i,
        {
            proof {
                assert(buckets@.take(i + 1).drop_last() =~= buckets@.take(i as int));
                assert(buckets@.take(i + 1).last() == buckets@[i as int]);
                lemma_range_hits(start, buckets@.take(i + 1), bucket_start, bucket_end);
            }
            let bucket: u16 = buckets[i].1;
            if bucket >= bucket_start && bucket <= bucket_end {
                let id: ChunkId = buckets[i].0;
                if self.invalidate_chunk(&id) {
                    count = count + 1;
                } else {
                    assert(self@ =~= without_range(
                        start,
                        buckets@.take(i + 1),
                        bucket_start,
                        bucket_end,
                    ));
                }
            }
            i = i + 1;
        }
        assert(buckets@.take(i as int) =~= buckets@);
        count
    }

    /// Current number of entries in the payload cache.
    pub fn cache_len(&self) -> (r: u64)
        ensures
            r == self@.dom().len(),
    {
        cache_size(&self.chunks) as u64
    }

    /// Snapshot of the counters.
    pub fn metrics_snapshot(&self, wait: LatencySummary, hold: LatencySummary) -> (r:
        LifecycleMetricsSnapshot)
        ensures
            r.cache_size == self@.dom().len(),
            r.lock_timeout_count == self.counters().lock_timeout_count,
            r.lock_busy_count == self.counters().lock_busy_count,
            r.cache_hit_count == self.counters().cache_hit_count,
            r.cache_miss_count == self.counters().cache_miss_count,
            r.reap_idle_count == self.counters().reap_idle_count,
            r.reap_idle_entries_removed == self.counters().reap_idle_entries_removed,
            r.invalidate_count == self.counters().invalidate_count,
            r.lock_wait_count == wait.count && r.lock_wait_p50_us == wait.p50_us
                && r.lock_wait_p99_us == wait.p99_us && r.lock_wait_max_us == wait.max_us,
            r.lock_hold_count == hold.count && r.lock_hold_p50_us == hold.p50_us
                && r.lock_hold_p99_us == hold.p99_us && r.lock_hold_max_us == hold.max_us,
    {
        self.metrics.snapshot(self.cache_len(), wait, hold)
    }

    /// Whether a lock was held longer than the threshold.
    pub fn held_too_long(&self, hold_us: u64) -> (r: bool)
        ensures
            r == (hold_us > self.threshold_us()),
    {
        hold_us > self.hold_warn_threshold_us
    }
}

proof fn lemma_without_range(
    records: Map<(u64, u64), ChunkModel>,
    pairs: Seq<(ChunkId, u16)>,
    bucket_start: u16,
    bucket_end: u16,
    at: int,
)
    requires
        0 <= at < pairs.len(),
        in_range(pairs[at], bucket_start, bucket_end),
    ensures
        !without_range(records, pairs, bucket_start, bucket_end).dom().contains(
            chunk_slot(pairs[at].0),
        ),
    decreases pairs.len(),
{
    if at < pairs.len() - 1 {
        lemma_without_range(records, pairs.drop_last(), bucket_start, bucket_end, at);
    }
}

/// After a range was invalidated, with the buckets of all cached chunks known,
/// no chunk of the range is served from the cache.
pub proof fn law_invalidated_range_is_gone(
    records: Map<(u64, u64), ChunkModel>,
    pairs: Seq<(ChunkId, u16)>,
    bucket_start: u16,
    bucket_end: u16,
    chunk_id: ChunkId,
    bucket: u16,
)
    requires
        bucket_start <= bucket <= bucket_end,
        records.dom().contains(chunk_slot(chunk_id)) ==> pairs.contains((chunk_id, bucket)),
    ensures
        !without_range(records, pairs, bucket_start, bucket_end).dom().contains(
            chunk_slot(chunk_id),
        ),
{
    if records.dom().contains(chunk_slot(chunk_id)) {
        let at = choose|at: int| 0 <= at < pairs.len() && pairs[at] == (chunk_id, bucket);
        lemma_without_range(records, pairs, bucket_start, bucket_end, at);
    } else {
        lemma_only_shrinks(records, pairs, bucket_start, bucket_end);
    }
}

proof fn lemma_only_shrinks(
    records: Map<(u64, u64), ChunkModel>,
    pairs: Seq<(ChunkId, u16)>,
    bucket_start: u16,
    bucket_end: u16,
)
    ensures
        without_range(records, pairs, bucket_start, bucket_end).submap_of(records),
    decreases pairs.len(),
{
    if pairs.len() > 0 {
        lemma_only_shrinks(records, pairs.drop_last(), bucket_start, bucket_end);
    }
}

/// Once a newer record of a chunk was put into the cache, an older one is never
/// served: what is held of the chunk is the newer record or nothing, and nothing
/// only where the chunk was not held before.
pub proof fn law_cache_never_stale(
    before: Map<(u64, u64), ChunkModel>,
    after: Map<(u64, u64), ChunkModel>,
    limit: usize,
    chunk_id: ChunkId,
    record: ChunkModel,
)
    requires
        holds_new_record(before, after, limit, chunk_slot(chunk_id), record),
    ensures
        after.dom().contains(chunk_slot(chunk_id)) ==> after[chunk_slot(chunk_id)] == record,
        before.dom().contains(chunk_slot(chunk_id)) ==> after.dom().contains(chunk_slot(chunk_id)),
        forall|slot: (u64, u64)|
            slot != chunk_slot(chunk_id) && #[trigger] after.dom().contains(slot)
                ==> before.dom().contains(slot) && after[slot] == before[slot],
{
    if after.dom().contains(chunk_slot(chunk_id)) {
        assert(before.insert(chunk_slot(chunk_id), record).dom().contains(chunk_slot(chunk_id)));
    }
    assert forall|slot: (u64, u64)|
        slot != chunk_slot(chunk_id) && #[trigger] after.dom().contains(slot) implies before.dom().contains(
    slot) && after[slot] == before[slot] by {
        assert(before.insert(chunk_slot(chunk_id), record).dom().contains(slot));
    }
}

/// Invalidating a range takes exactly the records of the chunks whose bucket lies in
/// it, and leaves all others as they are.
pub proof fn law_range_takes_its_chunks(
    records: Map<(u64, u64), ChunkModel>,
    pairs: Seq<(ChunkId, u16)>,
    bucket_start: u16,
    bucket_end: u16,
    slot: (u64, u64),
)
    ensures
        without_range(records, pairs, bucket_start, bucket_end).dom().contains(slot)
            <==> records.dom().contains(slot) && forall|i: int|
            0 <= i < pairs.len() && bucket_start <= (#[trigger] pairs[i]).1 <= bucket_end ==> (
                pairs[i].0.high,
                pairs[i].0.low,
            ) != slot,
        without_range(records, pairs, bucket_start, bucket_end).dom().contains(slot)
            ==> without_range(records, pairs, bucket_start, bucket_end)[slot] == records[slot],
    decreases pairs.len(),
{
    if pairs.len() > 0 {
        let front = pairs.drop_last();
        law_range_takes_its_chunks(records, front, bucket_start, bucket_end, slot);
        assert(pairs[pairs.len() - 1] == pairs.last());
        if without_range(records, pairs, bucket_start, bucket_end).dom().contains(slot) {
            assert forall|i: int|
                0 <= i < pairs.len() && bucket_start <= (#[trigger] pairs[i]).1
                    <= bucket_end implies (pairs[i].0.high, pairs[i].0.low) != slot by {
                if i < front.len() {
                    assert(front[i] == pairs[i]);
                }
            }
        }
        if forall|i: int|
            0 <= i < pairs.len() && bucket_start <= (#[trigger] pairs[i]).1 <= bucket_end ==> (
                pairs[i].0.high,
                pairs[i].0.low,
            ) != slot {
            assert forall|i: int|
                0 <= i < front.len() && bucket_start <= (#[trigger] front[i]).1
                    <= bucket_end implies (front[i].0.high, front[i].0.low) != slot by {
                assert(front[i] == pairs[i]);
            }
        }
    }
}

/// The chunks of a range that are told as gone are as many as the records that are
/// missing after it.
pub proof fn law_range_counts_what_left(
    records: Map<(u64, u64), ChunkModel>,
    pairs: Seq<(ChunkId, u16)>,
    bucket_start: u16,
    bucket_end: u16,
)
    requires
        records.dom().finite(),
    ensures
        without_range(records, pairs, bucket_start, bucket_end).dom().finite(),
        range_hits(records, pairs, bucket_start, bucket_end) + without_range(
            records,
            pairs,
            bucket_start,
            bucket_end,
        ).dom().len() == records.dom().len(),
    decreases pairs.len(),
{
    if pairs.len() > 0 {
        law_range_counts_what_left(records, pairs.drop_last(), bucket_start, bucket_end);
    }
}

/// Counting one by one adds up, and goes on from zero behind the largest count.
pub proof fn law_counts_add_up(start: u64, times: nat)
    ensures
        start + times <= u64::MAX ==> counted(start, times) == start + times,
        counted(start, times) as int == (start + times) % 0x1_0000_0000_0000_0000,
    decreases times,
{
    if times > 0 {
        law_counts_add_up(start, (times - 1) as nat);
    }
}

} // verus!
