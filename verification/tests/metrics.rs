//! Counters of requests, repairs, conversions and locks.
use crowdb_chunkdb::metrics::{
    recorded_latency_us, ChunkdbMetrics, ConversionMetrics, LatencySummary, LifecycleMetrics, RepairMetrics,
    RequestKind, RequestMetrics,
};

#[test]
fn conversion_metrics_track_attempts_io_and_peak_concurrency() {
    let mut metrics = ConversionMetrics::new();
    metrics.start_attempt();
    metrics.start_attempt();
    metrics.finish_attempt(true, 8, 12, 24);
    metrics.finish_attempt(false, 100, 100, 100);
    let snapshot = metrics.snapshot();
    assert_eq!(snapshot.attempts_started, 2);
    assert_eq!(snapshot.attempts_completed, 1);
    assert_eq!(snapshot.attempts_failed, 1);
    assert_eq!(snapshot.bytes_read, 8);
    assert_eq!(snapshot.bytes_written, 12);
    assert_eq!(snapshot.mirror_segments_retired, 24);
    assert_eq!(snapshot.active, 0);
    assert_eq!(snapshot.peak_active, 2);
}

#[test]
fn repair_metrics_track_queue_attempts_io_and_memory() {
    let mut metrics = RepairMetrics::new();
    metrics.set_memory_limit(64);
    metrics.admit_tasks(2);
    metrics.start_attempt();
    metrics.reserve_memory(16);
    metrics.release_memory(16);
    metrics.finish_attempt(true, 1, 32);
    let snapshot = metrics.snapshot();
    assert_eq!(snapshot.tasks_admitted, 2);
    assert_eq!(snapshot.attempts_started, 1);
    assert_eq!(snapshot.attempts_completed, 1);
    assert_eq!(snapshot.attempts_failed, 0);
    assert_eq!(snapshot.segments_repaired, 1);
    assert_eq!(snapshot.bytes_written, 32);
    assert_eq!(snapshot.active, 0);
    assert_eq!(snapshot.memory_bytes, 0);
    assert_eq!(snapshot.memory_limit_bytes, 64);
}

#[test]
fn failed_repair_counts_no_work() {
    let mut metrics = RepairMetrics::new();
    metrics.start_attempt();
    metrics.finish_attempt(false, 5, 50);
    let snapshot = metrics.snapshot();
    assert_eq!(snapshot.attempts_failed, 1);
    assert_eq!(snapshot.segments_repaired, 0);
    assert_eq!(snapshot.bytes_written, 0);
}

#[test]
fn requests_are_counted_by_kind() {
    let mut metrics = RequestMetrics::new();
    metrics.start(RequestKind::SealChunk);
    metrics.start(RequestKind::SealChunk);
    metrics.finish(RequestKind::SealChunk, false);
    let seal = metrics.count(RequestKind::SealChunk);
    assert_eq!((seal.completed, seal.inflight, seal.errors), (1, 1, 1));
    let list = metrics.count(RequestKind::ListChunks);
    assert_eq!((list.completed, list.inflight, list.errors), (0, 0, 0));
    assert!(RequestKind::SealChunk.index() != RequestKind::ListChunks.index());
}

#[test]
fn latency_is_at_least_one_microsecond() {
    assert_eq!(recorded_latency_us(0), 1);
    assert_eq!(recorded_latency_us(7), 7);
}

#[test]
fn lifecycle_counters_reach_the_snapshot() {
    let mut metrics = LifecycleMetrics::new();
    metrics.record_lock_timeout();
    metrics.record_lock_busy();
    metrics.record_lock_busy();
    metrics.record_cache_hit();
    metrics.record_cache_miss();
    metrics.record_reap_idle(4);
    metrics.record_invalidate();
    let wait = LatencySummary { count: 3, p50_us: 10, p99_us: 20, max_us: 30 };
    let hold = LatencySummary { count: 1, p50_us: 5, p99_us: 5, max_us: 5 };
    let snapshot = metrics.snapshot(9, wait, hold);
    assert_eq!(snapshot.lock_timeout_count, 1);
    assert_eq!(snapshot.lock_busy_count, 2);
    assert_eq!(snapshot.cache_hit_count, 1);
    assert_eq!(snapshot.cache_miss_count, 1);
    assert_eq!(snapshot.reap_idle_count, 1);
    assert_eq!(snapshot.reap_idle_entries_removed, 4);
    assert_eq!(snapshot.invalidate_count, 1);
    assert_eq!(snapshot.cache_size, 9);
    assert_eq!(snapshot.lock_wait_p99_us, 20);
    assert_eq!(snapshot.lock_hold_max_us, 5);
}

#[test]
fn allocation_metrics_track_the_workflow() {
    let mut metrics = ChunkdbMetrics::new();
    metrics.start_allocation();
    metrics.start_allocation();
    metrics.record_placement(3);
    metrics.record_diskdb_retry();
    metrics.record_strip(3);
    metrics.record_commit(3, true);
    metrics.record_commit(9, false);
    metrics.record_rollback(2);
    metrics.finish_allocation(false);
    assert_eq!(metrics.allocate_inflight, 1);
    metrics.finish_allocation(true);
    assert_eq!(metrics.allocate_inflight, 0);
    assert_eq!((metrics.allocate_strips, metrics.allocate_blocks), (1, 3));
    assert_eq!((metrics.allocate_diskdb_calls, metrics.allocate_diskdb_retries), (3, 1));
    assert_eq!((metrics.allocate_commit_blocks, metrics.allocate_commit_errors), (3, 1));
    assert_eq!((metrics.allocate_rollback_blocks, metrics.allocate_errors), (2, 1));
}
