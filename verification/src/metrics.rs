//! Counters of the service.
use vstd::prelude::*;
use crate::arith::max_u64;
use crate::text::text;

verus! {

/// Requests of the service, used as stable indices of the request counters.
#[derive(Debug, Clone, Copy, PartialEq, Eq, Structural)]
pub enum RequestKind {
    AllocateChunk,
    AppendChunk,
    AdvanceChunkWrite,
    QueryChunk,
    SealChunk,
    DeleteChunk,
    DeleteChunkRange,
    UpdateChunkStrip,
    ListChunks,
}

/// Number of request kinds.
pub const REQUEST_KINDS: usize = 9;

impl RequestKind {
    /// Name of the request.
    pub open spec fn spec_name(self) -> Seq<char> {
        match self {
            RequestKind::AllocateChunk => "allocate_chunk"@,
            RequestKind::AppendChunk => "append_chunk"@,
            RequestKind::AdvanceChunkWrite => "advance_chunk_write"@,
            RequestKind::QueryChunk => "query_chunk"@,
            RequestKind::SealChunk => "seal_chunk"@,
            RequestKind::DeleteChunk => "delete_chunk"@,
            RequestKind::DeleteChunkRange => "delete_chunk_range"@,
            RequestKind::UpdateChunkStrip => "update_chunk_strip"@,
            RequestKind::ListChunks => "list_chunks"@,
        }
    }

    /// Position of the request among all kinds.
    pub open spec fn spec_index(self) -> int {
        match self {
            RequestKind::AllocateChunk => 0,
            RequestKind::AppendChunk => 1,
            RequestKind::AdvanceChunkWrite => 2,
            RequestKind::QueryChunk => 3,
            RequestKind::SealChunk => 4,
            RequestKind::DeleteChunk => 5,
            RequestKind::DeleteChunkRange => 6,
            RequestKind::UpdateChunkStrip => 7,
            RequestKind::ListChunks => 8,
        }
    }

    /// Name of the request.
    pub fn name(self) -> (r: &'static str)
        ensures
            r@ == self.spec_name(),
    {
        match self {
            RequestKind::AllocateChunk => "allocate_chunk",
            RequestKind::AppendChunk => "append_chunk",
            RequestKind::AdvanceChunkWrite => "advance_chunk_write",
            RequestKind::QueryChunk => "query_chunk",
            RequestKind::SealChunk => "seal_chunk",
            RequestKind::DeleteChunk => "delete_chunk",
            RequestKind::DeleteChunkRange => "delete_chunk_range",
            RequestKind::UpdateChunkStrip => "update_chunk_strip",
            RequestKind::ListChunks => "list_chunks",
        }
    }

    /// Position of the request among all kinds.
    pub fn index(self) -> (r: usize)
        ensures
            r == self.spec_index(),
            r < REQUEST_KINDS,
    {
        match self {
            RequestKind::AllocateChunk => 0,
            RequestKind::AppendChunk => 1,
            RequestKind::AdvanceChunkWrite => 2,
            RequestKind::QueryChunk => 3,
            RequestKind::SealChunk => 4,
            RequestKind::DeleteChunk => 5,
            RequestKind::DeleteChunkRange => 6,
            RequestKind::UpdateChunkStrip => 7,
            RequestKind::ListChunks => 8,
        }
    }

    /// Name under which a counter of the request is registered.
    pub fn metric_name(self, suffix: &str) -> (r: String)
        ensures
            r@ == "request."@ + self.spec_name() + "."@ + suffix@,
    {
        let mut name = text("request.");
        name.append(self.name());
        name.append(".");
        name.append(suffix);
        name
    }
}

/// Requests of one kind.
#[derive(Debug, Clone, Copy, PartialEq, Eq, Structural)]
pub struct RequestCount {
    pub completed: u64,
    pub inflight: u64,
    pub errors: u64,
}

/// Completed, running and failed requests by kind.
#[derive(Debug)]
pub struct RequestMetrics {
    methods: Vec<RequestCount>,
}

fn with_count(methods: &Vec<RequestCount>, at: usize, count: RequestCount) -> (r: Vec<RequestCount>)
    requires
        at < methods@.len(),
    ensures
        r@ == methods@.update(at as int, count),
{
    let mut out: Vec<RequestCount> = Vec::new();
    let mut i: usize = 0;
    while i < methods.len()
        invariant
            i <= methods.len(),
            out@ == methods@.take(i as int),
        decreases methods.len() - i,
    {
        assert(methods@.take(i + 1) =~= methods@.take(i as int).push(methods@[i as int]));
        out.push(methods[i]);
        i = i + 1;
    }
    assert(methods@.take(i as int) =~= methods@);
    out.set(at, count);
    out
}

impl View for RequestMetrics {
    type V = Seq<RequestCount>;

    closed spec fn view(&self) -> Seq<RequestCount> {
        self.methods@
    }
}

impl RequestMetrics {
    #[verifier::type_invariant]
    spec fn well_formed(self) -> bool {
        self.methods@.len() == REQUEST_KINDS
    }

    /// Counters at zero.
    pub fn new() -> (r: Self)
        ensures
            r@.len() == REQUEST_KINDS,
            forall|i: int|
                0 <= i < REQUEST_KINDS ==> #[trigger] r@[i] == (RequestCount {
                    completed: 0,
                    inflight: 0,
                    errors: 0,
                }),
    {
        let mut methods: Vec<RequestCount> = Vec::new();
        while methods.len() < REQUEST_KINDS
            invariant
                methods@.len() <= REQUEST_KINDS,
                forall|i: int|
                    0 <= i < methods@.len() ==> #[trigger] methods@[i] == (RequestCount {
                        completed: 0,
                        inflight: 0,
                        errors: 0,
                    }),
            decreases REQUEST_KINDS - methods.len(),
        {
            methods.push(RequestCount { completed: 0, inflight: 0, errors: 0 });
        }
        RequestMetrics { methods }
    }

    /// Counts of one kind.
    pub fn count(&self, kind: RequestKind) -> (r: RequestCount)
        ensures
            r == self@[kind.spec_index()],
    {
        proof {
            use_type_invariant(self);
        }
        self.methods[kind.index()]
    }

    /// Start accounting for a request.
    pub fn start(&mut self, kind: RequestKind)
        ensures
            final(self)@ == old(self)@.update(
                kind.spec_index(),
                RequestCount {
                    inflight: old(self)@[kind.spec_index()].inflight.wrapping_add(1),
                    ..old(self)@[kind.spec_index()]
                },
            ),
    {
        proof {
            use_type_invariant(&*self);
        }
        let i: usize = kind.index();
        let mut count = self.methods[i];
        count.inflight = count.inflight.wrapping_add(1);
        self.methods = with_count(&self.methods, i, count);
    }

    /// Complete the accounting of a running request.
    pub fn finish(&mut self, kind: RequestKind, success: bool)
        requires
            old(self)@[kind.spec_index()].inflight > 0,
        ensures
            final(self)@ == old(self)@.update(
                kind.spec_index(),
                RequestCount {
                    completed: old(self)@[kind.spec_index()].completed.wrapping_add(1),
                    inflight: (old(self)@[kind.spec_index()].inflight - 1) as u64,
                    errors: if success {
                        old(self)@[kind.spec_index()].errors
                    } else {
                        old(self)@[kind.spec_index()].errors.wrapping_add(1)
                    },
                },
            ),
    {
        proof {
            use_type_invariant(&*self);
        }
        let i: usize = kind.index();
        let mut count = self.methods[i];
        if !success {
            count.errors = count.errors.wrapping_add(1);
        }
        count.completed = count.completed.wrapping_add(1);
        count.inflight = count.inflight - 1;
        self.methods = with_count(&self.methods, i, count);
    }
}

/// Counters of the allocation workflow.
#[derive(Debug, Clone, Copy, PartialEq, Eq, Structural)]
pub struct ChunkdbMetrics {
    pub allocate_inflight: u64,
    pub allocate_strips: u64,
    pub allocate_blocks: u64,
    pub allocate_diskdb_calls: u64,
    pub allocate_diskdb_retries: u64,
    pub allocate_commit_blocks: u64,
    pub allocate_commit_errors: u64,
    pub allocate_rollback_blocks: u64,
    pub allocate_errors: u64,
}

impl ChunkdbMetrics {
    /// Counters at zero.
    pub fn new() -> (r: Self)
        ensures
            r == (ChunkdbMetrics {
                allocate_inflight: 0,
                allocate_strips: 0,
                allocate_blocks: 0,
                allocate_diskdb_calls: 0,
                allocate_diskdb_retries: 0,
                allocate_commit_blocks: 0,
                allocate_commit_errors: 0,
                allocate_rollback_blocks: 0,
                allocate_errors: 0,
            }),
    {
        ChunkdbMetrics {
            allocate_inflight: 0,
            allocate_strips: 0,
            allocate_blocks: 0,
            allocate_diskdb_calls: 0,
            allocate_diskdb_retries: 0,
            allocate_commit_blocks: 0,
            allocate_commit_errors: 0,
            allocate_rollback_blocks: 0,
            allocate_errors: 0,
        }
    }

    /// Start accounting for the allocation of a chunk.
    pub fn start_allocation(&mut self)
        ensures
            *final(self) == (ChunkdbMetrics {
                allocate_inflight: old(self).allocate_inflight.wrapping_add(1),
                ..*old(self)
            }),
    {
        self.allocate_inflight = self.allocate_inflight.wrapping_add(1);
    }

    /// Complete the accounting of a running allocation.
    pub fn finish_allocation(&mut self, success: bool)
        ensures
            *final(self) == (ChunkdbMetrics {
                allocate_inflight: old(self).allocate_inflight.wrapping_sub(1),
                allocate_errors: if success {
                    old(self).allocate_errors
                } else {
                    old(self).allocate_errors.wrapping_add(1)
                },
                ..*old(self)
            }),
    {
        self.allocate_inflight = self.allocate_inflight.wrapping_sub(1);
        if !success {
            self.allocate_errors = self.allocate_errors.wrapping_add(1);
        }
    }

    /// A strip was placed: every entry of its plan asks a disk service.
    pub fn record_placement(&mut self, entries: usize)
        ensures
            *final(self) == (ChunkdbMetrics {
                allocate_diskdb_calls: old(self).allocate_diskdb_calls.wrapping_add(entries as u64),
                ..*old(self)
            }),
    {
        self.allocate_diskdb_calls = self.allocate_diskdb_calls.wrapping_add(entries as u64);
    }

    /// A partial response is asked for again.
    pub fn record_diskdb_retry(&mut self)
        ensures
            *final(self) == (ChunkdbMetrics {
                allocate_diskdb_retries: old(self).allocate_diskdb_retries.wrapping_add(1),
                ..*old(self)
            }),
    {
        self.allocate_diskdb_retries = self.allocate_diskdb_retries.wrapping_add(1);
    }

    /// A strip has all its blocks.
    pub fn record_strip(&mut self, blocks: usize)
        ensures
            *final(self) == (ChunkdbMetrics {
                allocate_strips: old(self).allocate_strips.wrapping_add(1),
                allocate_blocks: old(self).allocate_blocks.wrapping_add(blocks as u64),
                ..*old(self)
            }),
    {
        self.allocate_blocks = self.allocate_blocks.wrapping_add(blocks as u64);
        self.allocate_strips = self.allocate_strips.wrapping_add(1);
    }

    /// The blocks of a stored chunk were committed, or that failed.
    pub fn record_commit(&mut self, blocks: usize, success: bool)
        ensures
            *final(self) == (if success {
                ChunkdbMetrics {
                    allocate_commit_blocks: old(self).allocate_commit_blocks.wrapping_add(
                        blocks as u64,
                    ),
                    ..*old(self)
                }
            } else {
                ChunkdbMetrics {
                    allocate_commit_errors: old(self).allocate_commit_errors.wrapping_add(1),
                    ..*old(self)
                }
            }),
    {
        if success {
            self.allocate_commit_blocks = self.allocate_commit_blocks.wrapping_add(blocks as u64);
        } else {
            self.allocate_commit_errors = self.allocate_commit_errors.wrapping_add(1);
        }
    }

    /// Blocks of strips were rolled back.
    pub fn record_rollback(&mut self, blocks: usize)
        ensures
            *final(self) == (ChunkdbMetrics {
                allocate_rollback_blocks: old(self).allocate_rollback_blocks.wrapping_add(
                    blocks as u64,
                ),
                ..*old(self)
            }),
    {
        self.allocate_rollback_blocks = self.allocate_rollback_blocks.wrapping_add(blocks as u64);
    }
}

/// Repair counters at a point in time.
#[derive(Debug, Clone, Copy, PartialEq, Eq, Structural)]
pub struct RepairMetricsSnapshot {
    pub tasks_admitted: u64,
    pub attempts_started: u64,
    pub attempts_completed: u64,
    pub attempts_failed: u64,
    pub segments_repaired: u64,
    pub bytes_written: u64,
    pub active: u64,
    pub memory_bytes: u64,
    pub memory_limit_bytes: u64,
}

impl Default for RepairMetricsSnapshot {
    fn default() -> (r: Self)
        ensures
            r == (RepairMetricsSnapshot {
                tasks_admitted: 0,
                attempts_started: 0,
                attempts_completed: 0,
                attempts_failed: 0,
                segments_repaired: 0,
                bytes_written: 0,
                active: 0,
                memory_bytes: 0,
                memory_limit_bytes: 0,
            }),
    {
        RepairMetricsSnapshot {
            tasks_admitted: 0,
            attempts_started: 0,
            attempts_completed: 0,
            attempts_failed: 0,
            segments_repaired: 0,
            bytes_written: 0,
            active: 0,
            memory_bytes: 0,
            memory_limit_bytes: 0,
        }
    }
}

/// Counters of the recoveries that readers asked for.
#[derive(Debug, Clone, Copy, PartialEq, Eq, Structural)]
pub struct AdHocCounts {
    pub started: u64,
    pub joined: u64,
    pub joined_bytes: u64,
    pub rejected: u64,
    pub fallbacks: u64,
    pub stale: u64,
    pub published: u64,
}

/// Repair counters.
#[derive(Debug)]
pub struct RepairMetrics {
    pub counts: RepairMetricsSnapshot,
    pub ad_hoc: AdHocCounts,
}

impl RepairMetrics {
    /// Counters at zero.
    pub fn new() -> (r: Self)
        ensures
            r.counts.tasks_admitted == 0 && r.counts.attempts_started == 0
                && r.counts.attempts_completed == 0 && r.counts.attempts_failed == 0
                && r.counts.segments_repaired == 0 && r.counts.bytes_written == 0
                && r.counts.active == 0 && r.counts.memory_bytes == 0
                && r.counts.memory_limit_bytes == 0,
            r.ad_hoc == (AdHocCounts {
                started: 0,
                joined: 0,
                joined_bytes: 0,
                rejected: 0,
                fallbacks: 0,
                stale: 0,
                published: 0,
            }),
    {
        RepairMetrics {
            counts: RepairMetricsSnapshot::default(),
            ad_hoc: AdHocCounts {
                started: 0,
                joined: 0,
                joined_bytes: 0,
                rejected: 0,
                fallbacks: 0,
                stale: 0,
                published: 0,
            },
        }
    }

    pub fn set_memory_limit(&mut self, bytes: usize)
        ensures
            final(self).ad_hoc == old(self).ad_hoc,
            final(self).counts == (RepairMetricsSnapshot {
                memory_limit_bytes: bytes as u64,
                ..old(self).counts
            }),
    {
        self.counts.memory_limit_bytes = bytes as u64;
    }

    pub fn admit_tasks(&mut self, count: u64)
        ensures
            final(self).ad_hoc == old(self).ad_hoc,
            final(self).counts == (RepairMetricsSnapshot {
                tasks_admitted: old(self).counts.tasks_admitted.wrapping_add(count),
                ..old(self).counts
            }),
    {
        self.counts.tasks_admitted = self.counts.tasks_admitted.wrapping_add(count);
    }

    pub fn start_attempt(&mut self)
        ensures
            final(self).ad_hoc == old(self).ad_hoc,
            final(self).counts == (RepairMetricsSnapshot {
                attempts_started: old(self).counts.attempts_started.wrapping_add(1),
                active: old(self).counts.active.wrapping_add(1),
                ..old(self).counts
            }),
    {
        self.counts.attempts_started = self.counts.attempts_started.wrapping_add(1);
        self.counts.active = self.counts.active.wrapping_add(1);
    }

    pub fn reserve_memory(&mut self, bytes: usize)
        ensures
            final(self).ad_hoc == old(self).ad_hoc,
            final(self).counts == (RepairMetricsSnapshot {
                memory_bytes: old(self).counts.memory_bytes.wrapping_add(bytes as u64),
                ..old(self).counts
            }),
    {
        self.counts.memory_bytes = self.counts.memory_bytes.wrapping_add(bytes as u64);
    }

    /// Release memory that was reserved before.
    pub fn release_memory(&mut self, bytes: usize)
        requires
            bytes <= old(self).counts.memory_bytes,
        ensures
            final(self).ad_hoc == old(self).ad_hoc,
            final(self).counts == (RepairMetricsSnapshot {
                memory_bytes: (old(self).counts.memory_bytes - bytes) as u64,
                ..old(self).counts
            }),
    {
        self.counts.memory_bytes = self.counts.memory_bytes - bytes as u64;
    }

    /// Finish a running attempt; only a successful one counts its work.
    pub fn finish_attempt(&mut self, success: bool, segments: u64, bytes: u64)
        requires
            old(self).counts.active > 0,
        ensures
            final(self).ad_hoc == old(self).ad_hoc,
            final(self).counts == (if success {
                RepairMetricsSnapshot {
                    attempts_completed: old(self).counts.attempts_completed.wrapping_add(1),
                    segments_repaired: old(self).counts.segments_repaired.wrapping_add(segments),
                    bytes_written: old(self).counts.bytes_written.wrapping_add(bytes),
                    active: (old(self).counts.active - 1) as u64,
                    ..old(self).counts
                }
            } else {
                RepairMetricsSnapshot {
                    attempts_failed: old(self).counts.attempts_failed.wrapping_add(1),
                    active: (old(self).counts.active - 1) as u64,
                    ..old(self).counts
                }
            }),
    {
        if success {
            self.counts.attempts_completed = self.counts.attempts_completed.wrapping_add(1);
            self.counts.segments_repaired = self.counts.segments_repaired.wrapping_add(segments);
            self.counts.bytes_written = self.counts.bytes_written.wrapping_add(bytes);
        } else {
            self.counts.attempts_failed = self.counts.attempts_failed.wrapping_add(1);
        }
        self.counts.active = self.counts.active - 1;
    }

    /// A recovery was begun for a reader.
    pub fn ad_hoc_start(&mut self)
        ensures
            *final(self) == (RepairMetrics {
                ad_hoc: AdHocCounts {
                    started: old(self).ad_hoc.started.wrapping_add(1),
                    ..old(self).ad_hoc
                },
                ..*old(self)
            }),
    {
        self.ad_hoc.started = self.ad_hoc.started.wrapping_add(1);
    }

    /// A reader got the bytes of a recovery that another one had begun.
    pub fn ad_hoc_join(&mut self, bytes: u64)
        ensures
            *final(self) == (RepairMetrics {
                ad_hoc: AdHocCounts {
                    joined: old(self).ad_hoc.joined.wrapping_add(1),
                    joined_bytes: old(self).ad_hoc.joined_bytes.wrapping_add(bytes),
                    ..old(self).ad_hoc
                },
                ..*old(self)
            }),
    {
        self.ad_hoc.joined = self.ad_hoc.joined.wrapping_add(1);
        self.ad_hoc.joined_bytes = self.ad_hoc.joined_bytes.wrapping_add(bytes);
    }

    /// A recovery was refused for want of room.
    pub fn ad_hoc_reject(&mut self)
        ensures
            *final(self) == (RepairMetrics {
                ad_hoc: AdHocCounts {
                    rejected: old(self).ad_hoc.rejected.wrapping_add(1),
                    ..old(self).ad_hoc
                },
                ..*old(self)
            }),
    {
        self.ad_hoc.rejected = self.ad_hoc.rejected.wrapping_add(1);
    }

    /// A reader has to rebuild the fragment itself.
    pub fn ad_hoc_fallback(&mut self)
        ensures
            *final(self) == (RepairMetrics {
                ad_hoc: AdHocCounts {
                    fallbacks: old(self).ad_hoc.fallbacks.wrapping_add(1),
                    ..old(self).ad_hoc
                },
                ..*old(self)
            }),
    {
        self.ad_hoc.fallbacks = self.ad_hoc.fallbacks.wrapping_add(1);
    }

    /// A reader asked about an outdated layout.
    pub fn ad_hoc_stale(&mut self)
        ensures
            *final(self) == (RepairMetrics {
                ad_hoc: AdHocCounts {
                    stale: old(self).ad_hoc.stale.wrapping_add(1),
                    ..old(self).ad_hoc
                },
                ..*old(self)
            }),
    {
        self.ad_hoc.stale = self.ad_hoc.stale.wrapping_add(1);
    }

    /// A fragment was published while it was being recovered for a reader.
    pub fn ad_hoc_publish(&mut self)
        ensures
            *final(self) == (RepairMetrics {
                ad_hoc: AdHocCounts {
                    published: old(self).ad_hoc.published.wrapping_add(1),
                    ..old(self).ad_hoc
                },
                ..*old(self)
            }),
    {
        self.ad_hoc.published = self.ad_hoc.published.wrapping_add(1);
    }

    pub fn snapshot(&self) -> (r: RepairMetricsSnapshot)
        ensures
            r == self.counts,
    {
        self.counts
    }
}

/// Conversion counters at a point in time.
#[derive(Debug, Clone, Copy, PartialEq, Eq, Structural)]
pub struct ConversionMetricsSnapshot {
    pub attempts_started: u64,
    pub attempts_completed: u64,
    pub attempts_failed: u64,
    pub bytes_read: u64,
    pub bytes_written: u64,
    pub mirror_segments_retired: u64,
    pub active: u64,
    pub peak_active: u64,
}

impl Default for ConversionMetricsSnapshot {
    fn default() -> (r: Self)
        ensures
            r == (ConversionMetricsSnapshot {
                attempts_started: 0,
                attempts_completed: 0,
                attempts_failed: 0,
                bytes_read: 0,
                bytes_written: 0,
                mirror_segments_retired: 0,
                active: 0,
                peak_active: 0,
            }),
    {
        ConversionMetricsSnapshot {
            attempts_started: 0,
            attempts_completed: 0,
            attempts_failed: 0,
            bytes_read: 0,
            bytes_written: 0,
            mirror_segments_retired: 0,
            active: 0,
            peak_active: 0,
        }
    }
}

/// Conversion counters.
#[derive(Debug)]
pub struct ConversionMetrics {
    pub counts: ConversionMetricsSnapshot,
}

impl ConversionMetrics {
    /// Counters at zero.
    pub fn new() -> (r: Self)
        ensures
            r.counts.attempts_started == 0 && r.counts.attempts_completed == 0
                && r.counts.attempts_failed == 0 && r.counts.bytes_read == 0
                && r.counts.bytes_written == 0 && r.counts.mirror_segments_retired == 0
                && r.counts.active == 0 && r.counts.peak_active == 0,
    {
        ConversionMetrics { counts: ConversionMetricsSnapshot::default() }
    }

    /// Start an attempt; the peak follows the running attempts.
    pub fn start_attempt(&mut self)
        ensures
            final(self).counts == (ConversionMetricsSnapshot {
                attempts_started: old(self).counts.attempts_started.wrapping_add(1),
                active: old(self).counts.active.wrapping_add(1),
                peak_active: if old(self).counts.peak_active < old(self).counts.active.wrapping_add(
                    1,
                ) {
                    old(self).counts.active.wrapping_add(1)
                } else {
                    old(self).counts.peak_active
                },
                ..old(self).counts
            }),
    {
        self.counts.attempts_started = self.counts.attempts_started.wrapping_add(1);
        self.counts.active = self.counts.active.wrapping_add(1);
        self.counts.peak_active = max_u64(self.counts.peak_active, self.counts.active);
    }

    /// Finish a running attempt; only a successful one counts its work.
    pub fn finish_attempt(
        &mut self,
        success: bool,
        bytes_read: u64,
        bytes_written: u64,
        mirror_segments_retired: u64,
    )
        requires
            old(self).counts.active > 0,
        ensures
            final(self).counts == (if success {
                ConversionMetricsSnapshot {
                    attempts_completed: old(self).counts.attempts_completed.wrapping_add(1),
                    bytes_read: old(self).counts.bytes_read.wrapping_add(bytes_read),
                    bytes_written: old(self).counts.bytes_written.wrapping_add(bytes_written),
                    mirror_segments_retired: old(self).counts.mirror_segments_retired.wrapping_add(
                        mirror_segments_retired,
                    ),
                    active: (old(self).counts.active - 1) as u64,
                    ..old(self).counts
                }
            } else {
                ConversionMetricsSnapshot {
                    attempts_failed: old(self).counts.attempts_failed.wrapping_add(1),
                    active: (old(self).counts.active - 1) as u64,
                    ..old(self).counts
                }
            }),
    {
        if success {
            self.counts.attempts_completed = self.counts.attempts_completed.wrapping_add(1);
            self.counts.bytes_read = self.counts.bytes_read.wrapping_add(bytes_read);
            self.counts.bytes_written = self.counts.bytes_written.wrapping_add(bytes_written);
            self.counts.mirror_segments_retired =
            self.counts.mirror_segments_retired.wrapping_add(mirror_segments_retired);
        } else {
            self.counts.attempts_failed = self.counts.attempts_failed.wrapping_add(1);
        }
        self.counts.active = self.counts.active - 1;
    }

    pub fn snapshot(&self) -> (r: ConversionMetricsSnapshot)
        ensures
            r == self.counts,
    {
        self.counts
    }
}

/// Latencies of a lock in microseconds.
#[derive(Debug, Clone, Copy, PartialEq, Eq, Structural)]
pub struct LatencySummary {
    pub count: u64,
    pub p50_us: u64,
    pub p99_us: u64,
    pub max_us: u64,
}

/// Lock and cache counters at a point in time.
#[derive(Debug, Clone, Copy, PartialEq, Eq, Structural)]
pub struct LifecycleMetricsSnapshot {
    pub lock_timeout_count: u64,
    pub lock_busy_count: u64,
    pub cache_hit_count: u64,
    pub cache_miss_count: u64,
    pub cache_size: u64,
    pub reap_idle_count: u64,
    pub reap_idle_entries_removed: u64,
    /// Cache entries invalidated, one for each chunk removed.
    pub invalidate_count: u64,
    pub lock_wait_count: u64,
    pub lock_wait_p50_us: u64,
    pub lock_wait_p99_us: u64,
    pub lock_wait_max_us: u64,
    pub lock_hold_count: u64,
    pub lock_hold_p50_us: u64,
    pub lock_hold_p99_us: u64,
    pub lock_hold_max_us: u64,
}

/// Lock and cache counters.
#[derive(Debug, Clone, Copy, PartialEq, Eq, Structural)]
pub struct LifecycleMetrics {
    pub lock_timeout_count: u64,
    pub lock_busy_count: u64,
    pub cache_hit_count: u64,
    pub cache_miss_count: u64,
    pub reap_idle_count: u64,
    pub reap_idle_entries_removed: u64,
    pub invalidate_count: u64,
}

/// A latency as the histograms take it: at least one microsecond.
pub fn recorded_latency_us(dur_us: u64) -> (r: u64)
    ensures
        r == (if dur_us == 0 {
            1
        } else {
            dur_us
        }),
{
    max_u64(dur_us, 1)
}

impl LifecycleMetrics {
    /// Counters at zero.
    pub fn new() -> (r: Self)
        ensures
            r == (LifecycleMetrics {
                lock_timeout_count: 0,
                lock_busy_count: 0,
                cache_hit_count: 0,
                cache_miss_count: 0,
                reap_idle_count: 0,
                reap_idle_entries_removed: 0,
                invalidate_count: 0,
            }),
    {
        LifecycleMetrics {
            lock_timeout_count: 0,
            lock_busy_count: 0,
            cache_hit_count: 0,
            cache_miss_count: 0,
            reap_idle_count: 0,
            reap_idle_entries_removed: 0,
            invalidate_count: 0,
        }
    }

    pub fn record_lock_timeout(&mut self)
        ensures
            *final(self) == (LifecycleMetrics {
                lock_timeout_count: old(self).lock_timeout_count.wrapping_add(1),
                ..*old(self)
            }),
    {
        self.lock_timeout_count = self.lock_timeout_count.wrapping_add(1);
    }

    pub fn record_lock_busy(&mut self)
        ensures
            *final(self) == (LifecycleMetrics {
                lock_busy_count: old(self).lock_busy_count.wrapping_add(1),
                ..*old(self)
            }),
    {
        self.lock_busy_count = self.lock_busy_count.wrapping_add(1);
    }

    pub fn record_cache_hit(&mut self)
        ensures
            *final(self) == (LifecycleMetrics {
                cache_hit_count: old(self).cache_hit_count.wrapping_add(1),
                ..*old(self)
            }),
    {
        self.cache_hit_count = self.cache_hit_count.wrapping_add(1);
    }

    pub fn record_cache_miss(&mut self)
        ensures
            *final(self) == (LifecycleMetrics {
                cache_miss_count: old(self).cache_miss_count.wrapping_add(1),
                ..*old(self)
            }),
    {
        self.cache_miss_count = self.cache_miss_count.wrapping_add(1);
    }

    pub fn record_reap_idle(&mut self, entries_removed: u64)
        ensures
            *final(self) == (LifecycleMetrics {
                reap_idle_count: old(self).reap_idle_count.wrapping_add(1),
                reap_idle_entries_removed: old(self).reap_idle_entries_removed.wrapping_add(
                    entries_removed,
                ),
                ..*old(self)
            }),
    {
        self.reap_idle_count = self.reap_idle_count.wrapping_add(1);
        self.reap_idle_entries_removed = self.reap_idle_entries_removed.wrapping_add(
            entries_removed,
        );
    }

    pub fn record_invalidate(&mut self)
        ensures
            *final(self) == (LifecycleMetrics {
                invalidate_count: old(self).invalidate_count.wrapping_add(1),
                ..*old(self)
            }),
    {
        self.invalidate_count = self.invalidate_count.wrapping_add(1);
    }

    /// All counters, with the size of the cache and the latencies of the lock.
    pub fn snapshot(&self, cache_size: u64, wait: LatencySummary, hold: LatencySummary) -> (r:
        LifecycleMetricsSnapshot)
        ensures
            r == (LifecycleMetricsSnapshot {
                lock_timeout_count: self.lock_timeout_count,
                lock_busy_count: self.lock_busy_count,
                cache_hit_count: self.cache_hit_count,
                cache_miss_count: self.cache_miss_count,
                cache_size,
                reap_idle_count: self.reap_idle_count,
                reap_idle_entries_removed: self.reap_idle_entries_removed,
                invalidate_count: self.invalidate_count,
                lock_wait_count: wait.count,
                lock_wait_p50_us: wait.p50_us,
                lock_wait_p99_us: wait.p99_us,
                lock_wait_max_us: wait.max_us,
                lock_hold_count: hold.count,
                lock_hold_p50_us: hold.p50_us,
                lock_hold_p99_us: hold.p99_us,
                lock_hold_max_us: hold.max_us,
            }),
    {
        LifecycleMetricsSnapshot {
            lock_timeout_count: self.lock_timeout_count,
            lock_busy_count: self.lock_busy_count,
            cache_hit_count: self.cache_hit_count,
            cache_miss_count: self.cache_miss_count,
            cache_size,
            reap_idle_count: self.reap_idle_count,
            reap_idle_entries_removed: self.reap_idle_entries_removed,
            invalidate_count: self.invalidate_count,
            lock_wait_count: wait.count,
            lock_wait_p50_us: wait.p50_us,
            lock_wait_p99_us: wait.p99_us,
            lock_wait_max_us: wait.max_us,
            lock_hold_count: hold.count,
            lock_hold_p50_us: hold.p50_us,
            lock_hold_p99_us: hold.p99_us,
            lock_hold_max_us: hold.max_us,
        }
    }
}

} // verus!
