//! Read-triggered recovery: admission, coalescing of equal requests, and the
//! budget that they share.
use vstd::prelude::*;
use crate::lifecycle::handler::{find_sequence, strip_with_sequence};
use crate::metrics::{AdHocCounts, RepairMetrics};
use crate::order::stable_sorted;
use crate::repair::{repair_id, repair_task_id, sort_segments};
use crate::task::{ChunkTaskValue, ReadyChunkTaskKey};
use crate::text::text;
use crate::types::{
    contains_segment, copy_segments, Chunk, ChunkId, ChunkModel, ChunkStrip, EcState,
    LayoutModel, Segment, Strip, StripModel,
};

verus! {

/// What a recovery is about.
#[derive(Debug, Clone, Copy, PartialEq, Eq, Hash, Structural)]
pub struct RecoveryKey {
    pub chunk_id: ChunkId,
    pub strip_sequence: u32,
    pub segment: Segment,
}

/// A running recovery and what it holds of the budget.
#[derive(Debug, Clone, Copy, PartialEq, Eq, Structural)]
pub struct RecoveryEntry {
    pub key: RecoveryKey,
    pub source_revision: u64,
    pub memory: u32,
}

/// Running recoveries, at most one per key, within a number of jobs and a
/// memory budget.
#[derive(Debug)]
pub struct AdHocRecoveryShared {
    pub entries: Vec<RecoveryEntry>,
    pub max_jobs: usize,
    pub memory_limit: usize,
    pub memory_free: usize,
}

/// Memory held by a run of entries.
pub open spec fn memory_of(entries: Seq<RecoveryEntry>) -> int
    decreases entries.len(),
{
    if entries.len() == 0 {
        0
    } else {
        memory_of(entries.drop_last()) + entries.last().memory
    }
}

/// The entry of a key.
pub open spec fn entry_at(entries: Seq<RecoveryEntry>, key: RecoveryKey, from: int) -> Option<int>
    decreases entries.len() - from,
{
    if from < 0 || from >= entries.len() {
        None
    } else if entries[from].key == key {
        Some(from)
    } else {
        entry_at(entries, key, from + 1)
    }
}

proof fn lemma_entry_at(entries: Seq<RecoveryEntry>, key: RecoveryKey, from: int)
    requires
        0 <= from,
    ensures
        match entry_at(entries, key, from) {
            Some(at) => from <= at < entries.len() && entries[at].key == key,
            None => forall|i: int| from <= i < entries.len() ==> (#[trigger] entries[i]).key != key,
        },
    decreases entries.len() - from,
{
    if from < entries.len() && entries[from].key != key {
        lemma_entry_at(entries, key, from + 1);
    }
}

proof fn lemma_memory_nonnegative(entries: Seq<RecoveryEntry>)
    ensures
        memory_of(entries) >= 0,
    decreases entries.len(),
{
    if entries.len() > 0 {
        lemma_memory_nonnegative(entries.drop_last());
    }
}

proof fn lemma_memory_without(entries: Seq<RecoveryEntry>, at: int)
    requires
        0 <= at < entries.len(),
    ensures
        memory_of(entries.remove(at)) == memory_of(entries) - entries[at].memory,
    decreases entries.len(),
{
    let last = entries.len() - 1;
    if at == last {
        assert(entries.remove(at) =~= entries.drop_last());
    } else {
        lemma_memory_without(entries.drop_last(), at);
        assert(entries.remove(at).drop_last() =~= entries.drop_last().remove(at));
        assert(entries.remove(at).last() == entries.last());
    }
}

impl AdHocRecoveryShared {
    /// The entries have different keys and hold exactly what is missing from
    /// the budget.
    pub open spec fn well_formed(&self) -> bool {
        &&& self.entries@.len() <= self.max_jobs
        &&& self.memory_free + memory_of(self.entries@) == self.memory_limit
        &&& forall|i: int, j: int|
            0 <= i < j < self.entries@.len() ==> (#[trigger] self.entries@[i]).key != (
            #[trigger] self.entries@[j]).key
    }

    /// The revision under which a key is being recovered.
    pub open spec fn running(&self, key: RecoveryKey) -> Option<u64> {
        match entry_at(self.entries@, key, 0) {
            Some(at) => Some(self.entries@[at].source_revision),
            None => None,
        }
    }

    /// Nothing runs, and the whole budget is free.
    pub fn new(max_jobs: usize, memory_bytes: usize) -> (r: Self)
        ensures
            r.well_formed(),
            r.entries@ == Seq::<RecoveryEntry>::empty(),
            r.max_jobs == max_jobs,
            r.memory_limit == memory_bytes,
            r.memory_free == memory_bytes,
    {
        AdHocRecoveryShared {
            entries: Vec::new(),
            max_jobs,
            memory_limit: memory_bytes,
            memory_free: memory_bytes,
        }
    }

    fn find(&self, key: RecoveryKey) -> (r: Option<usize>)
        ensures
            (match r {
                Some(at) => Some(at as int),
                None => None,
            }) == entry_at(self.entries@, key, 0),
            r matches Some(at) ==> at < self.entries@.len() && self.entries@[at as int].key == key,
    {
        let mut i: usize = 0;
        while i < self.entries.len()
            invariant
                i <= self.entries.len(),
                entry_at(self.entries@, key, 0) == entry_at(self.entries@, key, i as int),
            decreases self.entries.len() - i,
        {
            if self.entries[i].key == key {
                return Some(i);
            }
            i = i + 1;
        }
        None
    }

    /// Joins the recovery that runs for a key, or begins one. `Some(true)` where
    /// one was begun, `Some(false)` where one of the same revision runs, `None`
    /// where one of another revision runs or the budget is used up.
    pub fn join_or_insert(&mut self, key: RecoveryKey, revision: u64, reserve_bytes: usize) -> (r: Option<
        bool,
    >)
        requires
            old(self).well_formed(),
        ensures
            final(self).well_formed(),
            final(self).max_jobs == old(self).max_jobs,
            final(self).memory_limit == old(self).memory_limit,
            match old(self).running(key) {
                Some(running) => *final(self) == *old(self) && r == (if running == revision {
                    Some(false)
                } else {
                    None
                }),
                None => if reserve_bytes <= u32::MAX && old(self).entries@.len() < old(self).max_jobs && reserve_bytes <= old(self).memory_free {
                    r == Some(true) && final(self).memory_free == old(self).memory_free
                        - reserve_bytes && final(self).entries@ == old(self).entries@.push(
                        RecoveryEntry {
                            key,
                            source_revision: revision,
                            memory: reserve_bytes as u32,
                        },
                    )
                } else {
                    r == None::<bool> && *final(self) == *old(self)
                },
            },
    {
        match self.find(key) {
            Some(at) => {
                return if self.entries[at].source_revision == revision {
                    Some(false)
                } else {
                    None
                };
            },
            None => {},
        }
        if reserve_bytes > u32::MAX as usize || self.entries.len() >= self.max_jobs || reserve_bytes
            > self.memory_free {
            return None;
        }
        let ghost before = self.entries@;
        let entry = RecoveryEntry { key, source_revision: revision, memory: reserve_bytes as u32 };
        self.entries.push(entry);
        self.memory_free = self.memory_free - reserve_bytes;
        proof {
            assert(self.entries@.drop_last() =~= before);
            lemma_entry_at(before, key, 0);
        }
        Some(true)
    }

    /// Whether a rebuilt or published key is being recovered.
    pub fn is_running(&self, key: RecoveryKey) -> (r: bool)
        ensures
            r == (self.running(key) is Some),
    {
        match self.find(key) {
            Some(_) => true,
            None => false,
        }
    }

    /// Counts a published key that is being recovered.
    pub fn published(&self, key: RecoveryKey, metrics: &mut RepairMetrics)
        ensures
            *final(metrics) == (if self.running(key) is Some {
                RepairMetrics {
                    ad_hoc: AdHocCounts {
                        published: old(metrics).ad_hoc.published.wrapping_add(1),
                        ..old(metrics).ad_hoc
                    },
                    ..*old(metrics)
                }
            } else {
                *old(metrics)
            }),
    {
        if self.is_running(key) {
            metrics.ad_hoc_publish();
        }
    }

    /// Ends the recovery of a key and gives back what it held.
    pub fn remove(&mut self, key: RecoveryKey)
        requires
            old(self).well_formed(),
        ensures
            final(self).well_formed(),
            final(self).max_jobs == old(self).max_jobs,
            final(self).memory_limit == old(self).memory_limit,
            match entry_at(old(self).entries@, key, 0) {
                Some(at) => final(self).entries@ == old(self).entries@.remove(at) && final(self).memory_free == old(self).memory_free + old(self).entries@[at].memory,
                None => *final(self) == *old(self),
            },
    {
        match self.find(key) {
            Some(at) => {
                let memory: usize = self.entries[at].memory as usize;
                let ghost before = self.entries@;
                proof {
                    lemma_memory_without(before, at as int);
                    lemma_memory_nonnegative(before.remove(at as int));
                }
                self.entries.remove(at);
                self.memory_free = self.memory_free + memory;
                proof {
                    let after = self.entries@;
                    assert(after == before.remove(at as int));
                    assert forall|i: int, j: int| 0 <= i < j < after.len() implies (
                    #[trigger] after[i]).key != (#[trigger] after[j]).key by {
                        let a = if i < at {
                            i
                        } else {
                            i + 1
                        };
                        let b = if j < at {
                            j
                        } else {
                            j + 1
                        };
                        assert(before[a].key != before[b].key);
                    }
                }
            },
            None => {},
        }
    }
}

/// Ending a recovery gives back all that beginning it took.
pub proof fn law_end_undoes_begin(entries: Seq<RecoveryEntry>, entry: RecoveryEntry)
    requires
        entry_at(entries, entry.key, 0) is None,
    ensures
        entry_at(entries.push(entry), entry.key, 0) == Some(entries.len() as int),
        entries.push(entry).remove(entries.len() as int) == entries,
{
    let next = entries.push(entry);
    lemma_entry_at(entries, entry.key, 0);
    lemma_entry_at(next, entry.key, 0);
    match entry_at(next, entry.key, 0) {
        Some(at) => {
            if at < entries.len() {
                assert(entries[at].key != entry.key);
            }
        },
        None => {
            assert(next[entries.len() as int].key != entry.key);
        },
    }
    assert(next.remove(entries.len() as int) =~= entries);
}

/// A request to recover a segment that could not be read.
#[derive(Debug, Clone, Copy, PartialEq, Eq, Structural)]
pub struct AdHocEcRecoveryRequest {
    pub version: u32,
    pub operation_id: Option<ChunkId>,
    pub chunk_id: Option<ChunkId>,
    pub strip_sequence: u32,
    pub failed_segment: Option<Segment>,
    pub expected_modify_ts: u64,
    pub request_full_block: bool,
}

/// How a request is answered.
#[derive(Debug, Clone, Copy, PartialEq, Eq, Structural)]
pub enum Disposition {
    Started,
    Coalesced,
    Marked,
    Healed,
    Stale,
    Incompatible,
    InsufficientShards,
    Saturated,
}

/// What a request is about, or why it cannot be told.
pub open spec fn identity_of(request: AdHocEcRecoveryRequest) -> Result<
    (RecoveryKey, ChunkId),
    Seq<char>,
> {
    match request.chunk_id {
        None => Err("chunk ID is required"@),
        Some(chunk_id) => match request.failed_segment {
            None => Err("failed segment is required"@),
            Some(segment) => if request.version != 1 || request.operation_id is None
                || segment.owner_chunk != Some(chunk_id) {
                Err("invalid recovery request identity"@)
            } else {
                Ok(
                    (
                        RecoveryKey { chunk_id, strip_sequence: request.strip_sequence, segment },
                        request.operation_id->0,
                    ),
                )
            },
        },
    }
}

/// What a request is about, and the operation that it names.
pub fn identify(request: &AdHocEcRecoveryRequest) -> (r: Result<(RecoveryKey, ChunkId), String>)
    ensures
        (match r {
            Ok(identity) => Ok::<(RecoveryKey, ChunkId), Seq<char>>(identity),
            Err(error) => Err(error@),
        }) == identity_of(*request),
{
    let chunk_id = match request.chunk_id {
        Some(id) => id,
        None => {
            return Err(text("chunk ID is required"));
        },
    };
    let segment = match request.failed_segment {
        Some(segment) => segment,
        None => {
            return Err(text("failed segment is required"));
        },
    };
    let operation_id = match request.operation_id {
        Some(id) => id,
        None => {
            return Err(text("invalid recovery request identity"));
        },
    };
    if request.version != 1 || segment.owner_chunk != Some(chunk_id) {
        return Err(text("invalid recovery request identity"));
    }
    Ok((RecoveryKey { chunk_id, strip_sequence: request.strip_sequence, segment }, operation_id))
}

/// What a request takes.
#[derive(Debug, Clone, Copy, PartialEq, Eq, Structural)]
pub enum RecoveryStep {
    /// Answer at once; `count_stale` where the request met an outdated layout.
    Answer { disposition: Disposition, count_stale: bool },
    /// Mark the segment of the strip, which may be done already, admit the
    /// repair, and answer that it is marked.
    Report { strip_index: usize, marked: bool },
    /// Recover the segment, with so much memory.
    Recover { reserve_bytes: usize },
    /// The fragment is larger than memory can be.
    TooLarge,
}

/// The answer that the layout of the strip gives, if it gives one.
pub open spec fn layout_answer(strip: StripModel, segment: Segment, full_block: bool) -> Option<
    Disposition,
> {
    match strip.strip {
        Some(LayoutModel::Ec { data_num, code_num, ec_state, segments }) => if !segments.contains(
            segment,
        ) {
            Some(Disposition::Healed)
        } else if ec_state != EcState::Parity || data_num == 0 || code_num == 0 {
            Some(Disposition::Incompatible)
        } else if strip.unavailable_segments.len() >= code_num
            && !strip.unavailable_segments.contains(segment) {
            Some(Disposition::InsufficientShards)
        } else {
            None
        },
        Some(LayoutModel::Mirror { segments }) => if full_block {
            Some(Disposition::Incompatible)
        } else if !segments.contains(segment) {
            Some(Disposition::Healed)
        } else {
            None
        },
        None => Some(Disposition::Incompatible),
    }
}

/// The answer that the layout of the strip gives, if it gives one.
pub fn answer_from_layout(strip: &ChunkStrip, segment: &Segment, full_block: bool) -> (r: Option<
    Disposition,
>)
    ensures
        r == layout_answer(strip@, *segment, full_block),
{
    match &strip.strip {
        Some(Strip::EcStrip(ec)) => {
            if !contains_segment(&ec.segments, segment) {
                return Some(Disposition::Healed);
            }
            if ec.ec_state != EcState::Parity || ec.data_num == 0 || ec.code_num == 0 {
                return Some(Disposition::Incompatible);
            }
            if strip.unavailable_segments.len() >= ec.code_num as usize && !contains_segment(
                &strip.unavailable_segments,
                segment,
            ) {
                return Some(Disposition::InsufficientShards);
            }
            None
        },
        Some(Strip::MirrorStrip(mirror)) => {
            if full_block {
                return Some(Disposition::Incompatible);
            }
            if !contains_segment(&mirror.segments, segment) {
                return Some(Disposition::Healed);
            }
            None
        },
        None => Some(Disposition::Incompatible),
    }
}

/// Bytes of the segment in units of a strip.
pub open spec fn fragment_bytes(segment: Segment, unit_kb: u32) -> int {
    segment.unit_count * unit_kb * 1024
}

/// What a request takes, from the chunk's record.
pub open spec fn recovery_step(
    chunk: ChunkModel,
    key: RecoveryKey,
    expected_modify_ts: u64,
    full_block: bool,
) -> RecoveryStep {
    match strip_with_sequence(chunk.strips, key.strip_sequence, 0) {
        None => RecoveryStep::Answer { disposition: Disposition::Stale, count_stale: true },
        Some(index) => {
            let strip = chunk.strips[index];
            let marked = strip.unavailable_segments.contains(key.segment);
            match layout_answer(strip, key.segment, full_block) {
                Some(disposition) => RecoveryStep::Answer { disposition, count_stale: false },
                None => if chunk.modify_ts != expected_modify_ts {
                    RecoveryStep::Answer { disposition: Disposition::Stale, count_stale: true }
                } else if !full_block {
                    RecoveryStep::Report { strip_index: index as usize, marked }
                } else if !marked {
                    RecoveryStep::Answer { disposition: Disposition::Stale, count_stale: false }
                } else if fragment_bytes(key.segment, strip.unit_kb) > usize::MAX {
                    RecoveryStep::TooLarge
                } else {
                    RecoveryStep::Recover {
                        reserve_bytes: fragment_bytes(key.segment, strip.unit_kb) as usize,
                    }
                },
            }
        },
    }
}

/// Decides what a request takes.
pub fn plan_recovery(chunk: &Chunk, key: &RecoveryKey, expected_modify_ts: u64, full_block: bool) -> (r:
    RecoveryStep)
    ensures
        r == recovery_step(chunk@, *key, expected_modify_ts, full_block),
{
    let index: usize = match find_sequence(&chunk.strips, key.strip_sequence) {
        Some(index) => index,
        None => {
            return RecoveryStep::Answer { disposition: Disposition::Stale, count_stale: true };
        },
    };
    let strip = &chunk.strips[index];
    assert(chunk@.strips[index as int] == strip@);
    match answer_from_layout(strip, &key.segment, full_block) {
        Some(disposition) => {
            return RecoveryStep::Answer { disposition, count_stale: false };
        },
        None => {},
    }
    if chunk.modify_ts != expected_modify_ts {
        return RecoveryStep::Answer { disposition: Disposition::Stale, count_stale: true };
    }
    let marked: bool = contains_segment(&strip.unavailable_segments, &key.segment);
    if !full_block {
        return RecoveryStep::Report { strip_index: index, marked };
    }
    if !marked {
        return RecoveryStep::Answer { disposition: Disposition::Stale, count_stale: false };
    }
    let units: u128 = key.segment.unit_count as u128;
    let unit_kb: u128 = strip.unit_kb as u128;
    assert(0 <= units * unit_kb <= 0xffff_ffff * 0xffff_ffff) by (nonlinear_arith)
        requires
            units <= 0xffff_ffff,
            unit_kb <= 0xffff_ffff,
    ;
    let bytes: u128 = units * unit_kb * 1024;
    if bytes > usize::MAX as u128 {
        return RecoveryStep::TooLarge;
    }
    RecoveryStep::Recover { reserve_bytes: bytes as usize }
}

/// How a recovery is answered: the recovered bytes and who asked for them, or
/// that they did not come in time.
pub fn answer_recovered(elected: bool, recovered: bool) -> (r: Disposition)
    ensures
        r == (if !recovered {
            Disposition::Saturated
        } else if elected {
            Disposition::Started
        } else {
            Disposition::Coalesced
        }),
{
    if !recovered {
        Disposition::Saturated
    } else if elected {
        Disposition::Started
    } else {
        Disposition::Coalesced
    }
}

/// Counts the step that a request is answered with.
pub fn count_step(metrics: &mut RepairMetrics, step: &RecoveryStep)
    ensures
        *final(metrics) == (match *step {
            RecoveryStep::Answer { count_stale: true, .. } => RepairMetrics {
                ad_hoc: AdHocCounts {
                    stale: old(metrics).ad_hoc.stale.wrapping_add(1),
                    ..old(metrics).ad_hoc
                },
                ..*old(metrics)
            },
            _ => *old(metrics),
        }),
{
    if let RecoveryStep::Answer { count_stale: true, .. } = step {
        metrics.ad_hoc_stale();
    }
}

/// Counts what became of a request for a recovery: `Some(true)` where one was
/// begun, `Some(false)` where it joined one, `None` where it was refused.
pub fn count_joining(metrics: &mut RepairMetrics, joined: Option<bool>)
    ensures
        *final(metrics) == (RepairMetrics {
            ad_hoc: match joined {
                Some(true) => AdHocCounts {
                    started: old(metrics).ad_hoc.started.wrapping_add(1),
                    ..old(metrics).ad_hoc
                },
                Some(false) => old(metrics).ad_hoc,
                None => AdHocCounts {
                    rejected: old(metrics).ad_hoc.rejected.wrapping_add(1),
                    fallbacks: old(metrics).ad_hoc.fallbacks.wrapping_add(1),
                    ..old(metrics).ad_hoc
                },
            },
            ..*old(metrics)
        }),
{
    match joined {
        Some(true) => metrics.ad_hoc_start(),
        Some(false) => {},
        None => {
            metrics.ad_hoc_reject();
            metrics.ad_hoc_fallback();
        },
    }
}

/// Counts how a recovery ended for a reader: with that many bytes, or with none
/// in time.
pub fn count_recovered(metrics: &mut RepairMetrics, elected: bool, recovered: Option<u64>)
    ensures
        *final(metrics) == (RepairMetrics {
            ad_hoc: match recovered {
                Some(bytes) => if elected {
                    old(metrics).ad_hoc
                } else {
                    AdHocCounts {
                        joined: old(metrics).ad_hoc.joined.wrapping_add(1),
                        joined_bytes: old(metrics).ad_hoc.joined_bytes.wrapping_add(bytes),
                        ..old(metrics).ad_hoc
                    }
                },
                None => AdHocCounts {
                    fallbacks: old(metrics).ad_hoc.fallbacks.wrapping_add(1),
                    ..old(metrics).ad_hoc
                },
            },
            ..*old(metrics)
        }),
{
    match recovered {
        Some(bytes) => {
            if !elected {
                metrics.ad_hoc_join(bytes);
            }
        },
        None => metrics.ad_hoc_fallback(),
    }
}

/// The strip with one more segment marked.
pub open spec fn with_mark(strip: StripModel, segment: Segment) -> StripModel {
    StripModel {
        unavailable_segments: stable_sorted(strip.unavailable_segments.push(segment)),
        ..strip
    }
}

/// Marks one more segment of a strip.
pub fn mark_segment(strip: &ChunkStrip, segment: Segment) -> (r: ChunkStrip)
    ensures
        r@ == with_mark(strip@, segment),
{
    let mut next = strip.clone();
    let mut marked = copy_segments(&strip.unavailable_segments);
    marked.push(segment);
    next.unavailable_segments = sort_segments(&marked);
    next
}

/// Identity of the repair task of a strip as it is marked now; none where the
/// strip is gone.
pub open spec fn repair_task_of(chunk: ChunkModel, strip_sequence: u32) -> Option<ChunkId> {
    match strip_with_sequence(chunk.strips, strip_sequence, 0) {
        Some(index) => Some(
            repair_id(strip_sequence, stable_sorted(chunk.strips[index].unavailable_segments)),
        ),
        None => None,
    }
}

/// Identity of the repair task of a strip as it is marked now.
pub fn find_repair_task(chunk: &Chunk, strip_sequence: u32) -> (r: Option<ChunkId>)
    ensures
        r == repair_task_of(chunk@, strip_sequence),
{
    match find_sequence(&chunk.strips, strip_sequence) {
        Some(index) => {
            assert(chunk@.strips[index as int] == chunk.strips@[index as int]@);
            Some(
                repair_task_id(
                    strip_sequence,
                    &sort_segments(&chunk.strips[index].unavailable_segments),
                ),
            )
        },
        None => None,
    }
}

/// The index entry under which a stored task can be claimed.
pub fn claim_index(task: &ChunkTaskValue, task_id: ChunkId) -> (r: ReadyChunkTaskKey)
    ensures
        r == (ReadyChunkTaskKey {
            priority_inverse: (u8::MAX - task.priority) as u8,
            eligible_at_ms: task.eligible_at_ms,
            partition_id: task.partition_id,
            kind: task.kind,
            task_id,
        }),
{
    ReadyChunkTaskKey {
        priority_inverse: u8::MAX - task.priority,
        eligible_at_ms: task.eligible_at_ms,
        partition_id: task.partition_id,
        kind: task.kind,
        task_id,
    }
}

/// A segment that the strip no longer holds is answered as healed, whatever else
/// the request says, where a strip of that kind can be recovered.
pub proof fn law_healed_segment_needs_nothing(
    chunk: ChunkModel,
    key: RecoveryKey,
    expected_modify_ts: u64,
    full_block: bool,
    index: int,
)
    requires
        strip_with_sequence(chunk.strips, key.strip_sequence, 0) == Some(index),
        !chunk.strips[index].segments().contains(key.segment),
        chunk.strips[index].strip matches Some(LayoutModel::Ec { .. }) || (!full_block
            && chunk.strips[index].strip is Some),
    ensures
        recovery_step(chunk, key, expected_modify_ts, full_block) == (RecoveryStep::Answer {
            disposition: Disposition::Healed,
            count_stale: false,
        }),
{
}

proof fn lemma_strip_of(strips: Seq<StripModel>, sequence: u32, from: int, k: int)
    requires
        0 <= from <= k < strips.len(),
        strips[k].strip_sequence == sequence,
        forall|j: int| from <= j < k ==> (#[trigger] strips[j]).strip_sequence != sequence,
    ensures
        strip_with_sequence(strips, sequence, from) == Some(k),
    decreases k - from,
{
    if from < k {
        assert(strips[from].strip_sequence != sequence);
        lemma_strip_of(strips, sequence, from + 1, k);
    }
}

/// A fragment is recovered for a reader only of an erasure-coded strip with its
/// parity, that still holds the segment, has it marked and has no more marked than
/// it has parity to spare for it, and only at the revision that the reader knows. The
/// memory asked for is that of the fragment. A report without the data is taken of a
/// segment that the strip still holds, at that revision, and tells whether it is marked
/// already.
pub proof fn law_recoveries_are_of_marked_segments(
    chunk: ChunkModel,
    key: RecoveryKey,
    expected_modify_ts: u64,
    full_block: bool,
    index: int,
)
    requires
        0 <= index < chunk.strips.len(),
        chunk.strips[index].strip_sequence == key.strip_sequence,
        forall|j: int|
            0 <= j < index ==> (#[trigger] chunk.strips[j]).strip_sequence != key.strip_sequence,
        index <= usize::MAX,
    ensures
        ({
            let strip = chunk.strips[index];
            let step = recovery_step(chunk, key, expected_modify_ts, full_block);
            let marked = strip.unavailable_segments.contains(key.segment);
            let size = key.segment.unit_count * strip.unit_kb * 1024;
            &&& (step is Recover) <==> {
                &&& full_block
                &&& chunk.modify_ts == expected_modify_ts
                &&& marked
                &&& size <= usize::MAX
                &&& (strip.strip matches Some(
                    LayoutModel::Ec { data_num, code_num, ec_state, segments },
                ) && segments.contains(key.segment) && ec_state == EcState::Parity && data_num > 0
                    && code_num > 0)
            }
            &&& step matches RecoveryStep::Recover { reserve_bytes } ==> reserve_bytes == size
            &&& step matches RecoveryStep::Report { strip_index, marked: told } ==> {
                &&& !full_block
                &&& chunk.modify_ts == expected_modify_ts
                &&& strip_index == index
                &&& told == marked
                &&& strip.segments().contains(key.segment)
            }
            &&& !full_block && chunk.modify_ts == expected_modify_ts && (
            strip.strip matches Some(LayoutModel::Mirror { segments }) && segments.contains(
                key.segment,
            )) ==> (step is Report)
            &&& strip.strip is Some && !strip.segments().contains(key.segment) && (!full_block || (
            strip.strip matches Some(LayoutModel::Ec { .. }))) ==> (step matches RecoveryStep::Answer {
                disposition,
                ..
            } && disposition == Disposition::Healed)
        }),
{
    lemma_strip_of(chunk.strips, key.strip_sequence, 0, index);
}

/// A request names its recovery where it is of the known version, has an operation,
/// a chunk and a segment of that chunk; the recovery is of these and of the strip that
/// it tells.
pub proof fn law_recovery_requests_are_identified(request: AdHocEcRecoveryRequest)
    ensures
        identity_of(request) is Ok <==> request.version == 1 && request.operation_id is Some
            && request.chunk_id is Some && request.failed_segment is Some
            && request.failed_segment->0.owner_chunk == request.chunk_id,
        identity_of(request) matches Ok((key, operation)) ==> Some(key.chunk_id) == request.chunk_id
            && key.strip_sequence == request.strip_sequence && Some(key.segment)
            == request.failed_segment && Some(operation) == request.operation_id,
{
}

/// Marking a segment adds it to the marked ones of the strip and changes nothing else.
pub proof fn law_marks_are_added(strip: StripModel, segment: Segment)
    ensures
        ({
            let next = with_mark(strip, segment);
            &&& next.unavailable_segments.len() == strip.unavailable_segments.len() + 1
            &&& forall|s: Segment| #[trigger]
                next.unavailable_segments.contains(s) <==> s == segment
                    || strip.unavailable_segments.contains(s)
            &&& next == StripModel { unavailable_segments: next.unavailable_segments, ..strip }
        }),
{
    let marked = strip.unavailable_segments;
    let more = marked.push(segment);
    crate::order::lemma_stable_sorted(more);
    let next = with_mark(strip, segment);
    assert forall|s: Segment| #[trigger] next.unavailable_segments.contains(s) <==> s == segment
        || marked.contains(s) by {
        assert(more[marked.len() as int] == segment);
        if marked.contains(s) {
            let k = choose|k: int| 0 <= k < marked.len() && marked[k] == s;
            assert(more[k] == s);
        }
        if more.contains(s) && s != segment {
            let k = choose|k: int| 0 <= k < more.len() && more[k] == s;
            assert(marked[k] == s);
        }
    }
}

/// What the running recoveries hold together is the sum of what each of them holds.
pub proof fn law_recovery_memory_adds_up(entries: Seq<RecoveryEntry>)
    ensures
        memory_of(entries) == entries.fold_left(
            0int,
            |sum: int, entry: RecoveryEntry| sum + entry.memory,
        ),
    decreases entries.len(),
{
    reveal(Seq::fold_left);
    if entries.len() > 0 {
        law_recovery_memory_adds_up(entries.drop_last());
    }
}

} // verus!
