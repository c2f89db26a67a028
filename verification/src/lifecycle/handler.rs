//! Decisions of the chunk operations.
//!
//! Each operation takes the stored record and gives the record to store, with
//! the segments to commit or to free around that write, or refuses the request.
use vstd::prelude::*;
use crate::allocator::{StripAllocType, StripBatchSpec};
use crate::arith::{
    clip_u32, clip_u64, div_ceil_u64, max_u32, min_u32, min_u64, sat_add_u32, sat_add_u64,
};
use crate::lifecycle::error::{invalid_request, LifecycleError, LifecycleErrorModel};
use crate::lifecycle::replace::{
    distinct_without, geometry_fault, segments_without, sequences_after,
    validate_replacement_geometry, validate_replacement_sequences,
};
use crate::lifecycle::state::{ExpectedState, StateTransitionError};
use crate::range_guard::RangeGuard;
use crate::selector::{ConstraintsModel, PlacementConstraints};
use crate::storage::{StoreError, StoreErrorModel};
use crate::text::{decimal, push_decimal, text_two_numbers};
use crate::topology::{DiskGroupEntry, TopologySnapshot};
use crate::types::{
    all_segments, append_strips, contains_disk, contains_segment, copy_segments, copy_strip_range,
    extract_all_segments, intent_models, lemma_capacity_concat, lemma_capacity_nonnegative,
    lemma_capacity_of_prefix, strip_models, strips_at, sum_capacity, total_capacity, Chunk, ChunkId,
    ChunkModel, ChunkState, ChunkStrip, ChunkType, EcState, EcStrip, IntentModel, LayoutModel,
    Segment, Strip, StripCleanupIntent, StripModel, StripType,
};

verus! {

/// Lifetime of a retired layout where none is configured.
pub const DEFAULT_LAYOUT_VALIDITY_MS: u64 = 30_000;

/// Lock wait of the default policy.
pub const DEFAULT_LOCK_WAIT_MS: u64 = 10_000;

/// Copies of a mirrored strip where the request names none.
pub const DEFAULT_COPY_COUNT: u32 = 3;

/// Writes of a new chunk before its allocation is given up.
pub const MAX_PERSIST_ATTEMPTS: u32 = 100;

/// Lock policy: how to handle contention on a per-chunk lock.
#[derive(Debug, Clone, Copy, PartialEq, Eq, Structural)]
pub enum LockPolicy {
    /// Fail fast with `LockBusy` on contention.
    TryLock,
    /// Wait up to so many milliseconds, then `LockTimeout`.
    Wait(u64),
}

impl Default for LockPolicy {
    fn default() -> (r: Self)
        ensures
            r == LockPolicy::Wait(DEFAULT_LOCK_WAIT_MS),
    {
        LockPolicy::Wait(DEFAULT_LOCK_WAIT_MS)
    }
}

/// Cache hint: whether to populate the payload cache.
#[derive(Debug, Clone, Copy, PartialEq, Eq, Structural)]
pub enum CacheHint {
    /// Populate cache on miss, write to cache on refresh.
    Cache,
    /// Skip cache population: always fetch from store.
    NoCache,
}

impl Default for CacheHint {
    fn default() -> (r: Self)
        ensures
            r == CacheHint::Cache,
    {
        CacheHint::Cache
    }
}

/// Policy of the chunk operations.
#[derive(Debug)]
pub struct LifecycleHandler {
    /// Range guard; absent in single-instance mode.
    pub range_guard: Option<RangeGuard>,
    /// Per-chunk locks are attached.
    pub locking: bool,
    /// Permit EC placement beyond the safe per-node bound.
    pub allow_unsafe_ec: bool,
    /// Lifetime of a retired layout.
    pub layout_validity_ms: u64,
}

/// What the range guard answers to a mutating request.
pub open spec fn range_refusal(handler: &LifecycleHandler, bucket: u16) -> Option<LifecycleErrorModel> {
    match handler.range_guard {
        Some(guard) => if guard.admits(bucket) {
            None
        } else {
            Some(LifecycleErrorModel::NotMyRange { bucket })
        },
        None => None,
    }
}

/// What an operation on active chunks answers to another state.
pub open spec fn inactive_refusal(state: ChunkState) -> LifecycleErrorModel {
    LifecycleErrorModel::InvalidStateTransition(
        StateTransitionError { from: state, expected: ExpectedState::Active },
    )
}

/// The deadline of a writer lease; a chunk without a shared writer has none.
pub open spec fn lease_deadline(now_ms: u64, writer_epoch: u64, writer_lease_ms: u64) -> u64 {
    if writer_epoch == 0 {
        0
    } else {
        clip_u64(now_ms + writer_lease_ms)
    }
}

/// The deadline of a writer lease.
pub fn writer_lease_deadline(now_ms: u64, writer_epoch: u64, writer_lease_ms: u64) -> (r: u64)
    ensures
        r == lease_deadline(now_ms, writer_epoch, writer_lease_ms),
{
    if writer_epoch == 0 {
        0
    } else {
        sat_add_u64(now_ms, writer_lease_ms)
    }
}

/// Model of an operation's result.
pub open spec fn chunk_result(r: Result<Chunk, LifecycleError>) -> Result<
    ChunkModel,
    LifecycleErrorModel,
> {
    match r {
        Ok(chunk) => Ok(chunk@),
        Err(error) => Err(error@),
    }
}

// ---------------------------------------------------------------------------
// Layout of new strips.
// ---------------------------------------------------------------------------

/// The strips placed one behind the other from `base` on.
pub open spec fn placed_from(strips: Seq<StripModel>, base: u32) -> Seq<StripModel> {
    Seq::new(
        strips.len(),
        |i: int|
            StripModel {
                chunk_offset: clip_u32(base + total_capacity(strips.take(i))),
                ..strips[i]
            },
    )
}

/// The strips are numbered one after the other from a sequence on.
pub open spec fn numbered_from(strips: Seq<StripModel>, start: u32) -> bool {
    forall|i: int| 0 <= i < strips.len() ==> (#[trigger] strips[i]).strip_sequence == start + i
}

/// Whether the strips are so many, numbered one after the other from a sequence
/// on.
pub fn is_batch(strips: &[ChunkStrip], start: u32, count: u32) -> (r: bool)
    ensures
        r == (strips@.len() == count && numbered_from(strip_models(strips@), start)),
{
    if strips.len() != count as usize {
        return false;
    }
    let ghost models = strip_models(strips@);
    let mut i: usize = 0;
    while i < strips.len()
        invariant
            i <= strips.len(),
            strips@.len() == count,
            models == strip_models(strips@),
            forall|j: int| 0 <= j < i ==> (#[trigger] models[j]).strip_sequence == start + j,
        decreases strips.len() - i,
    {
        assert(models[i as int] == strips@[i as int]@);
        if strips[i].strip_sequence as u64 != start as u64 + i as u64 {
            assert(models[i as int].strip_sequence != start + i);
            return false;
        }
        i = i + 1;
    }
    true
}

proof fn lemma_placed_capacity(strips: Seq<StripModel>, base: u32, n: int)
    requires
        0 <= n <= strips.len(),
    ensures
        total_capacity(placed_from(strips, base).take(n)) == total_capacity(strips.take(n)),
    decreases n,
{
    let placed = placed_from(strips, base);
    if n > 0 {
        lemma_placed_capacity(strips, base, n - 1);
        assert(placed.take(n).drop_last() =~= placed.take(n - 1));
        assert(strips.take(n).drop_last() =~= strips.take(n - 1));
        assert(placed.take(n).last() == placed[n - 1]);
        assert(strips.take(n).last() == strips[n - 1]);
    }
}

/// Placing strips leaves their capacity as it is.
pub proof fn lemma_placed_total(strips: Seq<StripModel>, base: u32)
    ensures
        total_capacity(placed_from(strips, base)) == total_capacity(strips),
{
    lemma_placed_capacity(strips, base, strips.len() as int);
    assert(placed_from(strips, base).take(strips.len() as int) =~= placed_from(strips, base));
    assert(strips.take(strips.len() as int) =~= strips);
}

/// Places strips one behind the other from `base` on.
pub fn assign_strip_offsets(strips: &mut Vec<ChunkStrip>, base: u32)
    requires
        total_capacity(strip_models(old(strips)@)) <= u32::MAX,
    ensures
        strip_models(final(strips)@) == placed_from(strip_models(old(strips)@), base),
{
    let ghost before = strip_models(strips@);
    let mut sum: u32 = 0;
    let mut i: usize = 0;
    let n: usize = strips.len();
    while i < n
        invariant
            i <= n,
            n == strips@.len(),
            before.len() == n,
            total_capacity(before) <= u32::MAX,
            sum == total_capacity(before.take(i as int)),
            forall|j: int| 0 <= j < i ==> (#[trigger] strips@[j])@ == placed_from(before, base)[j],
            forall|j: int| i <= j < n ==> (#[trigger] strips@[j])@ == before[j],
        decreases n - i,
    {
        proof {
            assert(before.take(i + 1).drop_last() =~= before.take(i as int));
            assert(before.take(i + 1).last() == before[i as int]);
            lemma_capacity_of_prefix(before, i + 1);
        }
        let mut strip = strips[i].clone();
        strip.chunk_offset = sat_add_u32(base, sum);
        sum = sum + strip.capacity;
        assert(strip@ == placed_from(before, base)[i as int]);
        strips.set(i, strip);
        i = i + 1;
    }
    assert(strip_models(strips@) =~= placed_from(before, base));
}

/// Units per segment of a new strip: the write granularity in units, at least
/// one; where the unit size is unknown the KiB count stands for units.
pub open spec fn units_for(write_granularity_kb: u32, unit_size_bytes: u32) -> u32 {
    let unit_kb = unit_size_bytes / 1024;
    let units = if unit_kb == 0 {
        write_granularity_kb
    } else {
        write_granularity_kb / unit_kb
    };
    if units == 0 {
        1
    } else {
        units
    }
}

/// Layout asked for by a request.
pub open spec fn requested_layout(
    strip_type: StripType,
    data_num: u32,
    code_num: u32,
    copy_count: u32,
) -> StripAllocType {
    match strip_type {
        StripType::Mirror => StripAllocType::Mirror {
            copy_count: if copy_count == 0 {
                DEFAULT_COPY_COUNT as usize
            } else {
                copy_count as usize
            },
        },
        StripType::Ec => StripAllocType::Ec {
            data_num: data_num as usize,
            code_num: code_num as usize,
        },
    }
}

fn layout_of_request(strip_type: StripType, data_num: u32, code_num: u32, copy_count: u32) -> (r:
    StripAllocType)
    ensures
        r == requested_layout(strip_type, data_num, code_num, copy_count),
{
    match strip_type {
        StripType::Mirror => {
            if copy_count == 0 {
                StripAllocType::Mirror { copy_count: DEFAULT_COPY_COUNT as usize }
            } else {
                StripAllocType::Mirror { copy_count: copy_count as usize }
            }
        },
        StripType::Ec => StripAllocType::Ec {
            data_num: data_num as usize,
            code_num: code_num as usize,
        },
    }
}

// ---------------------------------------------------------------------------
// Allocation.
// ---------------------------------------------------------------------------

/// The record of a new chunk.
pub open spec fn new_chunk(
    id: ChunkId,
    strips: Seq<StripModel>,
    strip_count: u32,
    chunk_type: ChunkType,
    writer_epoch: u64,
    writer_lease_ms: u64,
    now_ms: u64,
) -> ChunkModel {
    ChunkModel {
        id: Some(id),
        modify_ts: 1,
        state: ChunkState::Active,
        create_ts_ms: now_ms,
        sealed_ts_ms: 0,
        capacity: total_capacity(strips) as u32,
        sealed_length: 0,
        strips: placed_from(strips, 0),
        chunk_type,
        writer_epoch,
        acknowledged_cursor: 0,
        closed_strip_sequence: None,
        writer_lease_deadline_ms: lease_deadline(now_ms, writer_epoch, writer_lease_ms),
        next_strip_sequence: strip_count,
        cleanup_intents: Seq::empty(),
        last_strip_replacement: None,
    }
}

// ---------------------------------------------------------------------------
// Writes of a shared writer.
// ---------------------------------------------------------------------------

/// Position of the first strip with a sequence.
pub open spec fn strip_with_sequence(strips: Seq<StripModel>, sequence: u32, from: int) -> Option<int>
    decreases strips.len() - from,
{
    if from >= strips.len() {
        None
    } else if strips[from].strip_sequence == sequence {
        Some(from)
    } else {
        strip_with_sequence(strips, sequence, from + 1)
    }
}

/// Finds the first strip with a sequence.
pub fn find_sequence(strips: &[ChunkStrip], sequence: u32) -> (r: Option<usize>)
    ensures
        match r {
            Some(i) => strip_with_sequence(strip_models(strips@), sequence, 0) == Some(i as int) && i
                < strips@.len() && strips@[i as int]@.strip_sequence == sequence,
            None => strip_with_sequence(strip_models(strips@), sequence, 0) is None,
        },
{
    let ghost models = strip_models(strips@);
    let mut i: usize = 0;
    while i < strips.len()
        invariant
            i <= strips.len(),
            models == strip_models(strips@),
            strip_with_sequence(models, sequence, 0) == strip_with_sequence(
                models,
                sequence,
                i as int,
            ),
        decreases strips.len() - i,
    {
        assert(models[i as int] == strips@[i as int]@);
        if strips[i].strip_sequence == sequence {
            return Some(i);
        }
        i = i + 1;
    }
    None
}

/// The strips with every open one up to the sequence closed at full length.
pub open spec fn closed_through(strips: Seq<StripModel>, sequence: u32, now_ms: u64) -> Seq<StripModel> {
    Seq::new(
        strips.len(),
        |i: int|
            if strips[i].strip_sequence <= sequence && strips[i].sealed_ts_ms == 0 {
                StripModel {
                    sealed_ts_ms: now_ms,
                    sealed_length: strips[i].capacity,
                    ..strips[i]
                }
            } else {
                strips[i]
            },
    )
}

/// Why a strip cannot be closed at a cursor.
pub open spec fn close_fault(chunk: ChunkModel, cursor: u64, sequence: u32) -> Option<
    LifecycleErrorModel,
> {
    if chunk.closed_strip_sequence matches Some(current) && sequence < current {
        Some(LifecycleErrorModel::InvalidRequest("closed strip sequence cannot move backward"@))
    } else {
        match strip_with_sequence(chunk.strips, sequence, 0) {
            None => Some(
                LifecycleErrorModel::StripIndexOutOfRange {
                    index: sequence,
                    len: chunk.strips.len() as usize,
                },
            ),
            Some(i) => if chunk.strips[i].end_byte() > cursor {
                Some(
                    LifecycleErrorModel::InvalidRequest(
                        "closed strip extends beyond acknowledged cursor"@,
                    ),
                )
            } else {
                None
            },
        }
    }
}

/// A chunk whose writer acknowledged up to a cursor, or why that is refused.
pub open spec fn advanced(
    chunk: ChunkModel,
    writer_epoch: u64,
    expected_modify_ts: u64,
    cursor: u64,
    closed: Option<u32>,
    writer_lease_ms: u64,
    now_ms: u64,
) -> Result<ChunkModel, LifecycleErrorModel> {
    if writer_epoch == 0 || writer_lease_ms == 0 {
        Err(LifecycleErrorModel::InvalidRequest("writer epoch and lease must be nonzero"@))
    } else if chunk.state != ChunkState::Active {
        Err(inactive_refusal(chunk.state))
    } else if chunk.writer_epoch != writer_epoch || chunk.modify_ts != expected_modify_ts {
        Err(LifecycleErrorModel::StateConflict)
    } else if cursor <= chunk.acknowledged_cursor || cursor > chunk.capacity * 1024 {
        Err(
            LifecycleErrorModel::InvalidRequest(
                "acknowledged cursor "@ + decimal(cursor as nat) + " must advance beyond "@
                    + decimal(chunk.acknowledged_cursor as nat) + " within capacity "@ + decimal(
                    (chunk.capacity * 1024) as nat,
                ),
            ),
        )
    } else if closed matches Some(sequence) && close_fault(chunk, cursor, sequence) is Some {
        Err(close_fault(chunk, cursor, closed->0)->0)
    } else {
        Ok(
            ChunkModel {
                strips: match closed {
                    Some(sequence) => closed_through(chunk.strips, sequence, now_ms),
                    None => chunk.strips,
                },
                closed_strip_sequence: match closed {
                    Some(sequence) => Some(sequence),
                    None => chunk.closed_strip_sequence,
                },
                acknowledged_cursor: cursor,
                writer_lease_deadline_ms: clip_u64(now_ms + writer_lease_ms),
                modify_ts: clip_u64(chunk.modify_ts + 1),
                ..chunk
            },
        )
    }
}

fn close_strips_through(strips: &mut Vec<ChunkStrip>, sequence: u32, now_ms: u64)
    ensures
        strip_models(final(strips)@) == closed_through(strip_models(old(strips)@), sequence, now_ms),
{
    let ghost before = strip_models(strips@);
    let mut i: usize = 0;
    let n: usize = strips.len();
    while i < n
        invariant
            i <= n,
            n == strips@.len(),
            before.len() == n,
            forall|j: int|
                0 <= j < i ==> (#[trigger] strips@[j])@ == closed_through(before, sequence, now_ms)[j],
            forall|j: int| i <= j < n ==> (#[trigger] strips@[j])@ == before[j],
        decreases n - i,
    {
        if strips[i].strip_sequence <= sequence && strips[i].sealed_ts_ms == 0 {
            let mut strip = strips[i].clone();
            strip.sealed_ts_ms = now_ms;
            strip.sealed_length = strip.capacity;
            assert(strip@ == closed_through(before, sequence, now_ms)[i as int]);
            strips.set(i, strip);
        } else {
            assert(strips@[i as int]@ == closed_through(before, sequence, now_ms)[i as int]);
        }
        i = i + 1;
    }
    assert(strip_models(strips@) =~= closed_through(before, sequence, now_ms));
}

// ---------------------------------------------------------------------------
// Appending.
// ---------------------------------------------------------------------------

/// Result of an append: the new strips, or the whole record where the caller's
/// view of the chunk was stale.
#[derive(Debug)]
pub struct AppendChunkOutcome {
    pub modify_ts: u64,
    pub strips: Vec<ChunkStrip>,
    pub chunk: Option<Chunk>,
}

/// What an append has to do.
#[derive(Debug)]
pub enum AppendPlan {
    /// The caller's view is stale: answer with the record.
    Stale(AppendChunkOutcome),
    /// Allocate these strips.
    Allocate(StripBatchSpec),
}

/// Highest sequence of the strips.
pub open spec fn highest_sequence(strips: Seq<StripModel>) -> u32
    decreases strips.len(),
{
    if strips.len() == 0 {
        0
    } else {
        let front = highest_sequence(strips.drop_last());
        if strips.last().strip_sequence > front {
            strips.last().strip_sequence
        } else {
            front
        }
    }
}

/// First sequence that an append may use. Records that do not carry it yet get
/// it from their strips.
pub open spec fn append_start(chunk: ChunkModel) -> u32 {
    if chunk.next_strip_sequence != 0 {
        chunk.next_strip_sequence
    } else if chunk.strips.len() == 0 {
        0
    } else {
        clip_u32(highest_sequence(chunk.strips) + 1)
    }
}

fn start_of_append(chunk: &Chunk) -> (r: u32)
    ensures
        r == append_start(chunk@),
{
    if chunk.next_strip_sequence != 0 {
        return chunk.next_strip_sequence;
    }
    if chunk.strips.len() == 0 {
        return 0;
    }
    let ghost models = chunk@.strips;
    let mut highest: u32 = 0;
    let mut i: usize = 0;
    while i < chunk.strips.len()
        invariant
            i <= chunk.strips.len(),
            models == strip_models(chunk.strips@),
            highest == highest_sequence(models.take(i as int)),
        decreases chunk.strips.len() - i,
    {
        proof {
            assert(models.take(i + 1).drop_last() =~= models.take(i as int));
            assert(models.take(i + 1).last() == chunk.strips@[i as int]@);
        }
        highest = max_u32(highest, chunk.strips[i].strip_sequence);
        i = i + 1;
    }
    assert(models.take(i as int) =~= models);
    sat_add_u32(highest, 1)
}

/// The chunk with strips appended.
pub open spec fn appended(chunk: ChunkModel, strips: Seq<StripModel>, strip_count: u32) -> ChunkModel {
    let placed = placed_from(strips, chunk.capacity);
    ChunkModel {
        strips: chunk.strips + placed,
        next_strip_sequence: (append_start(chunk) + strip_count) as u32,
        capacity: total_capacity(chunk.strips + placed) as u32,
        modify_ts: clip_u64(chunk.modify_ts + 1),
        ..chunk
    }
}

// ---------------------------------------------------------------------------
// Sealing.
// ---------------------------------------------------------------------------

/// Number of strips that the cursor reaches into: strips are taken in order up
/// to the first that begins at or behind the cursor, or that ends behind it.
pub open spec fn reached(strips: Seq<StripModel>, cursor: u64, from: int) -> int
    decreases strips.len() - from,
{
    if from >= strips.len() {
        from
    } else if cursor <= strips[from].start_byte() {
        from
    } else if cursor < strips[from].end_byte() {
        from + 1
    } else {
        reached(strips, cursor, from + 1)
    }
}

/// A strip closed at a cursor that lies behind its start.
pub open spec fn closed_at(strip: StripModel, cursor: u64, now_ms: u64) -> StripModel {
    let end = if cursor < strip.end_byte() {
        cursor as int
    } else {
        strip.end_byte()
    };
    StripModel {
        sealed_length: clip_u32((end - strip.start_byte() + 1023) / 1024),
        sealed_ts_ms: now_ms,
        ..strip
    }
}

/// The chunk with every strip closed that its acknowledged cursor reaches into.
pub open spec fn acknowledged_closed(chunk: ChunkModel, now_ms: u64) -> ChunkModel {
    if chunk.writer_epoch == 0 || chunk.acknowledged_cursor == 0 {
        chunk
    } else {
        let n = reached(chunk.strips, chunk.acknowledged_cursor, 0);
        ChunkModel {
            strips: Seq::new(
                chunk.strips.len(),
                |i: int|
                    if i < n {
                        closed_at(chunk.strips[i], chunk.acknowledged_cursor, now_ms)
                    } else {
                        chunk.strips[i]
                    },
            ),
            closed_strip_sequence: if n == 0 {
                chunk.closed_strip_sequence
            } else {
                Some(chunk.strips[n - 1].strip_sequence)
            },
            ..chunk
        }
    }
}

proof fn lemma_reached(strips: Seq<StripModel>, cursor: u64, from: int)
    requires
        0 <= from <= strips.len(),
    ensures
        from <= reached(strips, cursor, from) <= strips.len(),
    decreases strips.len() - from,
{
    if from < strips.len() && cursor > strips[from].start_byte() && cursor
        >= strips[from].end_byte() {
        lemma_reached(strips, cursor, from + 1);
    }
}

/// Closes every strip that the acknowledged cursor reaches into.
pub fn close_acknowledged_strips(chunk: &mut Chunk, now_ms: u64)
    ensures
        final(chunk)@ == acknowledged_closed(old(chunk)@, now_ms),
{
    if chunk.writer_epoch == 0 || chunk.acknowledged_cursor == 0 {
        return ;
    }
    let cursor: u64 = chunk.acknowledged_cursor;
    let ghost before = chunk@;
    let ghost models = before.strips;
    let ghost done = acknowledged_closed(before, now_ms);
    let ghost total = reached(models, cursor, 0);
    proof {
        lemma_reached(models, cursor, 0);
    }
    let mut last_closed: Option<u32> = chunk.closed_strip_sequence;
    let n: usize = chunk.strips.len();
    let mut i: usize = 0;
    let mut stopped = false;
    while i < n && !stopped
        invariant
            i <= n,
            n == chunk.strips@.len(),
            models == before.strips,
            models.len() == n,
            cursor == before.acknowledged_cursor,
            cursor != 0,
            before.writer_epoch != 0,
            total == reached(models, cursor, 0),
            total <= n,
            done == acknowledged_closed(before, now_ms),
            chunk@ == (ChunkModel { strips: chunk@.strips, ..before }),
            if stopped {
                total == i
            } else {
                total == reached(models, cursor, i as int)
            },
            last_closed == (if i == 0 {
                before.closed_strip_sequence
            } else {
                Some(models[i - 1].strip_sequence)
            }),
            i <= total,
            forall|j: int| 0 <= j < i ==> (#[trigger] chunk.strips@[j])@ == done.strips[j],
            forall|j: int| i <= j < n ==> (#[trigger] chunk.strips@[j])@ == models[j],
        ensures
            i <= n,
            total == i,
        decreases n - i, if stopped {
                0int
            } else {
                1int
            },
    {
        proof {
            lemma_reached(models, cursor, i as int);
            if i + 1 <= n {
                lemma_reached(models, cursor, i + 1);
            }
        }
        let start: u64 = (chunk.strips[i].chunk_offset as u64) * 1024;
        if cursor <= start {
            stopped = true;
        } else {
            let mut strip = chunk.strips[i].clone();
            let end: u64 = (sat_add_u32(strip.chunk_offset, strip.capacity) as u64) * 1024;
            let length: u64 = min_u64(cursor, end) - start;
            let units: u64 = div_ceil_u64(length, 1024);
            strip.sealed_length = if units > u32::MAX as u64 {
                u32::MAX
            } else {
                units as u32
            };
            strip.sealed_ts_ms = now_ms;
            last_closed = Some(strip.strip_sequence);
            assert(strip@ == closed_at(models[i as int], cursor, now_ms));
            assert(strip@ == done.strips[i as int]);
            chunk.strips.set(i, strip);
            i = i + 1;
            if cursor < end {
                stopped = true;
            }
        }
    }
    chunk.closed_strip_sequence = last_closed;
    proof {
        assert(chunk@.strips =~= done.strips) by {
            assert forall|j: int| 0 <= j < n implies chunk@.strips[j] == done.strips[j] by {
                assert(chunk.strips@[j]@ == chunk@.strips[j]);
            }
        }
    }
}

/// A strip with its parity written and its length known.
pub open spec fn parity_sealed(strip: StripModel, length: u32, now_ms: u64) -> StripModel {
    StripModel {
        sealed_length: length,
        sealed_ts_ms: now_ms,
        strip: match strip.strip {
            Some(LayoutModel::Ec { data_num, code_num, segments, .. }) => Some(
                LayoutModel::Ec { data_num, code_num, ec_state: EcState::Parity, segments },
            ),
            other => other,
        },
        ..strip
    }
}

/// The strips from `from` on with the erasure-coded ones sealed as far as
/// `remaining` reaches. Only erasure-coded strips use it up.
pub open spec fn written_sealed(
    strips: Seq<StripModel>,
    from: int,
    remaining: u32,
    now_ms: u64,
) -> Seq<StripModel>
    decreases strips.len() - from,
{
    if from < 0 || from >= strips.len() {
        strips
    } else {
        let strip = strips[from];
        let written = if remaining <= strip.capacity {
            remaining
        } else {
            strip.capacity
        };
        if written == 0 {
            strips
        } else if strip.strip matches Some(LayoutModel::Ec { .. }) {
            written_sealed(
                strips.update(from, parity_sealed(strip, written, now_ms)),
                from + 1,
                (remaining - written) as u32,
                now_ms,
            )
        } else {
            written_sealed(strips, from + 1, remaining, now_ms)
        }
    }
}

fn with_parity(strip: &ChunkStrip, length: u32, now_ms: u64) -> (r: ChunkStrip)
    ensures
        r@ == parity_sealed(strip@, length, now_ms),
{
    let mut next = strip.clone();
    next.sealed_length = length;
    next.sealed_ts_ms = now_ms;
    match &strip.strip {
        Some(Strip::EcStrip(ec)) => {
            next.strip = Some(
                Strip::EcStrip(
                    EcStrip {
                        data_num: ec.data_num,
                        code_num: ec.code_num,
                        ec_state: EcState::Parity,
                        segments: copy_segments(&ec.segments),
                    },
                ),
            );
        },
        _ => {},
    }
    next
}

/// Seals the erasure-coded strips as far as the seal length reaches.
pub fn seal_written_ec_strips(strips: &mut Vec<ChunkStrip>, seal_length: u32, now_ms: u64)
    ensures
        strip_models(final(strips)@) == written_sealed(
            strip_models(old(strips)@),
            0,
            seal_length,
            now_ms,
        ),
{
    let ghost before = strip_models(strips@);
    let mut remaining: u32 = seal_length;
    let n: usize = strips.len();
    let mut i: usize = 0;
    while i < n
        invariant
            i <= n,
            n == strips@.len(),
            before == strip_models(old(strips)@),
            written_sealed(before, 0, seal_length, now_ms) == written_sealed(
                strip_models(strips@),
                i as int,
                remaining,
                now_ms,
            ),
        decreases n - i,
    {
        let ghost now_models = strip_models(strips@);
        assert(now_models[i as int] == strips@[i as int]@);
        let written: u32 = min_u32(remaining, strips[i].capacity);
        if written == 0 {
            return ;
        }
        let is_ec = match &strips[i].strip {
            Some(Strip::EcStrip(_)) => true,
            _ => false,
        };
        if is_ec {
            let sealed = with_parity(&strips[i], written, now_ms);
            let ghost sealed_model = sealed@;
            strips.set(i, sealed);
            assert(strip_models(strips@) =~= now_models.update(i as int, sealed_model));
            remaining = remaining - written;
        }
        i = i + 1;
    }
}

/// The chunk sealed at a length, or why that is refused.
pub open spec fn sealed(chunk: ChunkModel, seal_length: u32, now_ms: u64) -> Result<
    ChunkModel,
    LifecycleErrorModel,
> {
    if chunk.state != ChunkState::Active {
        Err(inactive_refusal(chunk.state))
    } else if seal_length > chunk.capacity {
        Err(
            LifecycleErrorModel::InvalidRequest(
                "seal_length "@ + decimal(seal_length as nat) + " exceeds chunk capacity "@ + decimal(
                    chunk.capacity as nat,
                ),
            ),
        )
    } else {
        Ok(
            acknowledged_closed(
                ChunkModel {
                    state: ChunkState::Sealed,
                    modify_ts: clip_u64(chunk.modify_ts + 1),
                    sealed_length: seal_length,
                    sealed_ts_ms: now_ms,
                    strips: written_sealed(chunk.strips, 0, seal_length, now_ms),
                    ..chunk
                },
                now_ms,
            ),
        )
    }
}

/// The chunk is active and its shared writer's lease has run out.
pub open spec fn writer_expired(chunk: ChunkModel, now_ms: u64) -> bool {
    chunk.state == ChunkState::Active && chunk.writer_epoch != 0 && chunk.writer_lease_deadline_ms
        <= now_ms
}

/// The chunk sealed at what its writer acknowledged.
pub open spec fn sealed_at_cursor(chunk: ChunkModel, now_ms: u64) -> ChunkModel {
    acknowledged_closed(
        ChunkModel {
            state: ChunkState::Sealed,
            modify_ts: clip_u64(chunk.modify_ts + 1),
            sealed_ts_ms: now_ms,
            sealed_length: clip_u32((chunk.acknowledged_cursor + 1023) / 1024),
            ..chunk
        },
        now_ms,
    )
}

// ---------------------------------------------------------------------------
// Deleting.
// ---------------------------------------------------------------------------

/// A record whose strips are gone.
pub open spec fn emptied(chunk: ChunkModel) -> ChunkModel {
    ChunkModel { strips: Seq::empty(), capacity: 0, ..chunk }
}

/// What a deletion has to do.
#[derive(Debug)]
pub enum DeleteStep {
    /// The tombstone is complete: answer with it.
    Done(Chunk),
    /// The tombstone still owns segments: free them, then store the record.
    Free { segments: Vec<Segment>, emptied: Chunk },
    /// Store the tombstone before any segment becomes reusable, then free the
    /// segments where there are any, then store the record without strips.
    Publish { tombstone: Chunk, segments: Vec<Segment>, emptied: Chunk },
}

/// Model of a deletion step.
pub enum DeleteModel {
    Done(ChunkModel),
    Free { segments: Seq<Segment>, emptied: ChunkModel },
    Publish { tombstone: ChunkModel, segments: Seq<Segment>, emptied: ChunkModel },
}

impl View for DeleteStep {
    type V = DeleteModel;

    open spec fn view(&self) -> DeleteModel {
        match self {
            DeleteStep::Done(chunk) => DeleteModel::Done(chunk@),
            DeleteStep::Free { segments, emptied } => DeleteModel::Free {
                segments: segments@,
                emptied: emptied@,
            },
            DeleteStep::Publish { tombstone, segments, emptied } => DeleteModel::Publish {
                tombstone: tombstone@,
                segments: segments@,
                emptied: emptied@,
            },
        }
    }
}

/// What deleting a chunk takes, or why it is refused.
pub open spec fn deletion(chunk: ChunkModel) -> Result<DeleteModel, LifecycleErrorModel> {
    if chunk.state == ChunkState::Deleted {
        if chunk.strips.len() == 0 {
            Ok(DeleteModel::Done(chunk))
        } else {
            Ok(DeleteModel::Free { segments: all_segments(chunk.strips), emptied: emptied(chunk) })
        }
    } else if chunk.state == ChunkState::Active || chunk.state == ChunkState::Sealed {
        let tombstone = ChunkModel {
            state: ChunkState::Deleted,
            modify_ts: clip_u64(chunk.modify_ts + 1),
            ..chunk
        };
        Ok(
            DeleteModel::Publish {
                tombstone,
                segments: all_segments(chunk.strips),
                emptied: emptied(tombstone),
            },
        )
    } else {
        Err(
            LifecycleErrorModel::InvalidStateTransition(
                StateTransitionError { from: chunk.state, expected: ExpectedState::ActiveOrSealed },
            ),
        )
    }
}

/// The strip shares some part of `[offset, end)`.
pub open spec fn overlaps(strip: StripModel, offset: u32, end: u32) -> bool {
    strip.chunk_offset < end && offset < clip_u32(strip.chunk_offset + strip.capacity)
}

/// The strips that do (`inside`) or do not share some part of `[offset, end)`,
/// in order.
pub open spec fn strips_by_overlap(
    strips: Seq<StripModel>,
    offset: u32,
    end: u32,
    inside: bool,
) -> Seq<StripModel>
    decreases strips.len(),
{
    if strips.len() == 0 {
        Seq::empty()
    } else {
        let front = strips_by_overlap(strips.drop_last(), offset, end, inside);
        if overlaps(strips.last(), offset, end) == inside {
            front.push(strips.last())
        } else {
            front
        }
    }
}

/// The record without a range, and the segments that left it.
#[derive(Debug)]
pub struct RangeDeletion {
    pub chunk: Chunk,
    pub segments: Vec<Segment>,
}

/// What deleting `[offset, offset + size)` leaves of a chunk and the segments
/// that leave it, or why it is refused.
pub open spec fn range_deletion(chunk: ChunkModel, offset: u32, size: u32) -> Result<
    (ChunkModel, Seq<Segment>),
    LifecycleErrorModel,
> {
    if size == 0 {
        Err(LifecycleErrorModel::InvalidRequest("delete range size must be non-zero"@))
    } else if chunk.state != ChunkState::Active {
        Err(inactive_refusal(chunk.state))
    } else if offset + size > u32::MAX {
        Err(LifecycleErrorModel::InvalidRequest("delete range overflows u32"@))
    } else {
        let end = (offset + size) as u32;
        let kept = strips_by_overlap(chunk.strips, offset, end, false);
        Ok(
            (
                ChunkModel {
                    strips: kept,
                    capacity: total_capacity(kept) as u32,
                    modify_ts: clip_u64(chunk.modify_ts + 1),
                    ..chunk
                },
                all_segments(strips_by_overlap(chunk.strips, offset, end, true)),
            ),
        )
    }
}

// ---------------------------------------------------------------------------
// Replacing.
// ---------------------------------------------------------------------------

/// What a replacement has to do.
#[derive(Debug)]
pub enum ReplaceOutcome {
    /// The same operation was applied before: answer with the record.
    Applied(Chunk),
    /// Commit the segments, then store the record. Where the write fails, the
    /// segments are freed again.
    Publish { commit: Vec<Segment>, chunk: Chunk },
}

/// Model of a replacement outcome.
pub enum ReplaceModel {
    Applied(ChunkModel),
    Publish { commit: Seq<Segment>, chunk: ChunkModel },
}

impl View for ReplaceOutcome {
    type V = ReplaceModel;

    open spec fn view(&self) -> ReplaceModel {
        match self {
            ReplaceOutcome::Applied(chunk) => ReplaceModel::Applied(chunk@),
            ReplaceOutcome::Publish { commit, chunk } => ReplaceModel::Publish {
                commit: commit@,
                chunk: chunk@,
            },
        }
    }
}

/// Cleanup intents with one more where segments retire.
pub open spec fn with_retired(
    intents: Seq<IntentModel>,
    operation_id: Option<ChunkId>,
    retired: Seq<Segment>,
    not_before_ms: u64,
) -> Seq<IntentModel> {
    if retired.len() == 0 {
        intents
    } else {
        intents.push(IntentModel { operation_id, retired_segments: retired, not_before_ms })
    }
}

/// The chunk with `[start, end)` replaced.
pub open spec fn replaced(
    chunk: ChunkModel,
    start: int,
    end: int,
    replacement: Seq<StripModel>,
    next_strip_sequence: u32,
    operation_id: ChunkId,
    not_before_ms: u64,
) -> ChunkModel {
    let strips = chunk.strips.take(start) + replacement + chunk.strips.skip(end);
    let retired = distinct_without(
        all_segments(chunk.strips.subrange(start, end)),
        all_segments(replacement),
    );
    ChunkModel {
        strips,
        capacity: total_capacity(strips) as u32,
        next_strip_sequence,
        modify_ts: clip_u64(chunk.modify_ts + 1),
        last_strip_replacement: Some(operation_id),
        cleanup_intents: with_retired(
            chunk.cleanup_intents,
            Some(operation_id),
            retired,
            not_before_ms,
        ),
        ..chunk
    }
}

/// The operation is the last one that the chunk went through, and its result
/// stands.
pub open spec fn already_replaced(
    chunk: ChunkModel,
    expected_modify_ts: u64,
    start: int,
    replacement: Seq<StripModel>,
    operation_id: ChunkId,
) -> bool {
    &&& chunk.modify_ts == clip_u64(expected_modify_ts + 1)
    &&& chunk.last_strip_replacement == Some(operation_id)
    &&& start + replacement.len() <= chunk.strips.len()
    &&& chunk.strips.subrange(start, start + replacement.len()) == replacement
}

/// What replacing a strip range takes, or why it is refused.
pub open spec fn replacement_of(
    chunk: ChunkModel,
    chunk_id: ChunkId,
    expected_modify_ts: u64,
    start_index: u32,
    old_strips: Seq<StripModel>,
    replacement: Seq<StripModel>,
    operation_id: ChunkId,
    not_before_ms: u64,
) -> Result<ReplaceModel, LifecycleErrorModel> {
    let start = start_index as int;
    let end = start + old_strips.len();
    if old_strips.len() == 0 || replacement.len() == 0 {
        Err(LifecycleErrorModel::InvalidRequest("strip replacement ranges must be non-empty"@))
    } else if chunk.state != ChunkState::Active && chunk.state != ChunkState::Sealed {
        Err(
            LifecycleErrorModel::InvalidStateTransition(
                StateTransitionError { from: chunk.state, expected: ExpectedState::ActiveOrSealed },
            ),
        )
    } else if end > chunk.strips.len() {
        Err(
            LifecycleErrorModel::StripIndexOutOfRange {
                index: start_index,
                len: chunk.strips.len() as usize,
            },
        )
    } else if already_replaced(chunk, expected_modify_ts, start, replacement, operation_id) {
        Ok(ReplaceModel::Applied(chunk))
    } else if chunk.modify_ts != expected_modify_ts || chunk.strips.subrange(start, end)
        != old_strips {
        Err(LifecycleErrorModel::StateConflict)
    } else if geometry_fault(old_strips, replacement, chunk_id) is Some {
        Err(
            LifecycleErrorModel::InvalidRequest(
                geometry_fault(old_strips, replacement, chunk_id)->0,
            ),
        )
    } else {
        match sequences_after(chunk, start, end, replacement) {
            Err(fault) => Err(LifecycleErrorModel::InvalidRequest(fault)),
            Ok(next) => Ok(
                ReplaceModel::Publish {
                    commit: distinct_without(all_segments(replacement), all_segments(old_strips)),
                    chunk: replaced(
                        chunk,
                        start,
                        end,
                        replacement,
                        next,
                        operation_id,
                        not_before_ms,
                    ),
                },
            ),
        }
    }
}

/// Model of a replacement result.
pub open spec fn replace_result(r: Result<ReplaceOutcome, LifecycleError>) -> Result<
    ReplaceModel,
    LifecycleErrorModel,
> {
    match r {
        Ok(outcome) => Ok(outcome@),
        Err(error) => Err(error@),
    }
}

/// Identity of a one-strip update at a revision.
pub open spec fn update_operation_id(chunk_id: ChunkId, modify_ts: u64, strip_index: u32) -> ChunkId {
    ChunkId { high: chunk_id.high ^ modify_ts, low: chunk_id.low ^ (strip_index as u64) }
}

// ---------------------------------------------------------------------------
// Reconciling.
// ---------------------------------------------------------------------------

/// The intents that are not due yet, in order.
pub open spec fn pending_intents(intents: Seq<IntentModel>, now_ms: u64) -> Seq<IntentModel>
    decreases intents.len(),
{
    if intents.len() == 0 {
        Seq::empty()
    } else {
        let front = pending_intents(intents.drop_last(), now_ms);
        if intents.last().not_before_ms > now_ms {
            front.push(intents.last())
        } else {
            front
        }
    }
}

/// The segments that are in use by none of the strips, in order.
pub open spec fn unreferenced(segments: Seq<Segment>, current: Seq<Segment>) -> Seq<Segment>
    decreases segments.len(),
{
    if segments.len() == 0 {
        Seq::empty()
    } else {
        let front = unreferenced(segments.drop_last(), current);
        if current.contains(segments.last()) {
            front
        } else {
            front.push(segments.last())
        }
    }
}

/// The segments that the due intents free, one run per intent, in order.
pub open spec fn due_frees(
    intents: Seq<IntentModel>,
    current: Seq<Segment>,
    now_ms: u64,
) -> Seq<Seq<Segment>>
    decreases intents.len(),
{
    if intents.len() == 0 {
        Seq::empty()
    } else {
        let front = due_frees(intents.drop_last(), current, now_ms);
        if intents.last().not_before_ms > now_ms {
            front
        } else {
            front.push(unreferenced(intents.last().retired_segments, current))
        }
    }
}

/// What finishing a chunk's interrupted operation takes.
#[derive(Debug)]
pub enum ReconcileStep {
    /// Nothing is interrupted.
    Nothing,
    /// Commit the segments, then store the record as active.
    Activate { segments: Vec<Segment>, chunk: Chunk },
    /// Free the segments, then store the record without strips.
    Clear { segments: Vec<Segment>, chunk: Chunk },
}

/// What reconciling one chunk takes: the frees of its due intents, the record to
/// store after them where there were any, and the step that finishes its
/// interrupted operation.
#[derive(Debug)]
pub struct ReconcilePlan {
    pub frees: Vec<Vec<Segment>>,
    pub cleaned: Option<Chunk>,
    pub step: ReconcileStep,
}

/// The chunk without its due intents.
pub open spec fn cleaned_chunk(chunk: ChunkModel, now_ms: u64) -> ChunkModel {
    ChunkModel { cleanup_intents: pending_intents(chunk.cleanup_intents, now_ms), ..chunk }
}

/// The step that finishes the chunk's interrupted operation.
pub open spec fn is_reconcile_step(step: ReconcileStep, chunk: ChunkModel) -> bool {
    match step {
        ReconcileStep::Nothing => chunk.state == ChunkState::Active || chunk.state
            == ChunkState::Sealed || (chunk.state == ChunkState::Deleted && chunk.strips.len() == 0),
        ReconcileStep::Activate { segments, chunk: next } => chunk.state == ChunkState::Init
            && segments@ == all_segments(chunk.strips) && next@ == (ChunkModel {
            state: ChunkState::Active,
            ..chunk
        }),
        ReconcileStep::Clear { segments, chunk: next } => chunk.state == ChunkState::Deleted
            && chunk.strips.len() > 0 && segments@ == all_segments(chunk.strips) && next@ == emptied(
            chunk,
        ),
    }
}

proof fn lemma_pending_shorter(intents: Seq<IntentModel>, current: Seq<Segment>, now_ms: u64)
    ensures
        pending_intents(intents, now_ms).len() + due_frees(intents, current, now_ms).len()
            == intents.len(),
        pending_intents(intents, now_ms).len() == intents.len() ==> pending_intents(intents, now_ms)
            == intents,
    decreases intents.len(),
{
    if intents.len() > 0 {
        lemma_pending_shorter(intents.drop_last(), current, now_ms);
        if pending_intents(intents, now_ms).len() == intents.len() {
            assert(intents.drop_last().push(intents.last()) =~= intents);
        }
    }
}

/// The nodes that hold a surviving segment: one entry per disk-group that does.
pub open spec fn surviving_nodes(groups: Seq<DiskGroupEntry>, surviving: Seq<Segment>) -> Seq<u64>
    decreases groups.len(),
{
    if groups.len() == 0 {
        Seq::empty()
    } else {
        let front = surviving_nodes(groups.drop_last(), surviving);
        if group_holds_any(groups.last(), surviving) {
            front.push(groups.last().node_id)
        } else {
            front
        }
    }
}

/// One of the segments lies on a disk of the group.
pub open spec fn group_holds_any(group: DiskGroupEntry, segments: Seq<Segment>) -> bool {
    exists|i: int|
        0 <= i < segments.len() && ((#[trigger] segments[i]).disk_id matches Some(disk)
            && group.value.disk_ids@.contains(disk))
}

fn holds_any(group: &DiskGroupEntry, segments: &[Segment]) -> (r: bool)
    ensures
        r == group_holds_any(*group, segments@),
{
    let mut i: usize = 0;
    while i < segments.len()
        invariant
            i <= segments.len(),
            forall|j: int|
                0 <= j < i ==> !((#[trigger] segments@[j]).disk_id matches Some(disk)
                    && group.value.disk_ids@.contains(disk)),
        decreases segments.len() - i,
    {
        match segments[i].disk_id {
            Some(disk) => {
                if contains_disk(&group.value.disk_ids, disk) {
                    return true;
                }
            },
            None => {},
        }
        i = i + 1;
    }
    false
}

impl LifecycleHandler {
    /// A handler without range guard, safe placement only.
    pub fn new() -> (r: Self)
        ensures
            r.range_guard is None,
            !r.locking,
            !r.allow_unsafe_ec,
            r.layout_validity_ms == DEFAULT_LAYOUT_VALIDITY_MS,
    {
        LifecycleHandler {
            range_guard: None,
            locking: false,
            allow_unsafe_ec: false,
            layout_validity_ms: DEFAULT_LAYOUT_VALIDITY_MS,
        }
    }

    /// Lifetime of a retired layout.
    pub fn layout_validity_ms(&self) -> (r: u64)
        ensures
            r == self.layout_validity_ms,
    {
        self.layout_validity_ms
    }

    /// Keep retired layouts for another time.
    pub fn with_layout_validity(self, duration_ms: u64) -> (r: Self)
        ensures
            r == (LifecycleHandler { layout_validity_ms: duration_ms, ..self }),
    {
        let mut next = self;
        next.layout_validity_ms = duration_ms;
        next
    }

    /// Attach a range guard for sharded mode.
    pub fn with_range_guard(self, guard: RangeGuard) -> (r: Self)
        ensures
            r == (LifecycleHandler { range_guard: Some(guard), ..self }),
    {
        let mut next = self;
        next.range_guard = Some(guard);
        next
    }

    /// Attach the per-chunk locks.
    pub fn with_locks(self) -> (r: Self)
        ensures
            r == (LifecycleHandler { locking: true, ..self }),
    {
        let mut next = self;
        next.locking = true;
        next
    }

    /// Permit explicitly configured unsafe EC placement fallback.
    pub fn with_allow_unsafe_ec(self, allow: bool) -> (r: Self)
        ensures
            r == (LifecycleHandler { allow_unsafe_ec: allow, ..self }),
    {
        let mut next = self;
        next.allow_unsafe_ec = allow;
        next
    }

    /// Check the range guard (if present) before processing a mutating request.
    /// Read-only requests bypass the guard.
    pub fn check_range(&self, bucket: u16) -> (r: Result<(), LifecycleError>)
        ensures
            match range_refusal(self, bucket) {
                Some(error) => r matches Err(e) && e@ == error,
                None => r is Ok,
            },
    {
        match &self.range_guard {
            Some(guard) => match guard.check(bucket) {
                Ok(()) => Ok(()),
                Err(e) => Err(LifecycleError::NotMyRange { bucket: e.bucket }),
            },
            None => Ok(()),
        }
    }

    /// Constraints of new placements.
    pub open spec fn spec_constraints(&self) -> ConstraintsModel {
        ConstraintsModel { allow_unsafe_ec: self.allow_unsafe_ec, ..ConstraintsModel::none() }
    }

    /// Constraints of new placements.
    pub fn placement_constraints(&self) -> (r: PlacementConstraints)
        ensures
            r@ == self.spec_constraints(),
    {
        let constraints = PlacementConstraints::new();
        if self.allow_unsafe_ec {
            constraints.allow_unsafe_ec()
        } else {
            constraints
        }
    }

    /// What a create request finds under its ID decides whether it may go on.
    pub fn check_absent(found: Result<Chunk, StoreError>) -> (r: Result<(), LifecycleError>)
        ensures
            match found {
                Ok(_) => r matches Err(e) && e@ == LifecycleErrorModel::ChunkAlreadyExists,
                Err(error) => if error@ == StoreErrorModel::ChunkNotFound {
                    r is Ok
                } else {
                    r matches Err(e) && e@ == LifecycleErrorModel::Storage(error@)
                },
            },
    {
        match found {
            Ok(_) => Err(LifecycleError::ChunkAlreadyExists),
            Err(StoreError::ChunkNotFound) => Ok(()),
            Err(error) => Err(LifecycleError::Storage(error)),
        }
    }

    /// The strips that a new chunk needs.
    pub fn allocation_spec(
        write_granularity_kb: u32,
        unit_size_bytes: u32,
        strip_count: u32,
        strip_type: StripType,
        data_num: u32,
        code_num: u32,
        copy_count: u32,
    ) -> (r: StripBatchSpec)
        ensures
            r == (StripBatchSpec {
                strip_type: requested_layout(strip_type, data_num, code_num, copy_count),
                unit_count: units_for(write_granularity_kb, unit_size_bytes),
                start_sequence: 0,
                strip_count,
            }),
    {
        let unit_kb: u32 = unit_size_bytes / 1024;
        let units: u32 = if unit_kb == 0 {
            write_granularity_kb
        } else {
            write_granularity_kb / unit_kb
        };
        StripBatchSpec {
            strip_type: layout_of_request(strip_type, data_num, code_num, copy_count),
            unit_count: max_u32(units, 1),
            start_sequence: 0,
            strip_count,
        }
    }

    /// The record of a new chunk over its allocated strips. Where the request is
    /// refused, the strips are rolled back.
    pub fn allocate_chunk(
        &self,
        id: ChunkId,
        bucket: u16,
        strips: Vec<ChunkStrip>,
        strip_count: u32,
        chunk_type: ChunkType,
        writer_epoch: u64,
        writer_lease_ms: u64,
        now_ms: u64,
    ) -> (r: Result<Chunk, LifecycleError>)
        requires
            strips@.len() == strip_count,
            numbered_from(strip_models(strips@), 0),
            total_capacity(strip_models(strips@)) <= u32::MAX,
        ensures
            chunk_result(r) == (if range_refusal(self, bucket) is Some {
                Err(range_refusal(self, bucket)->0)
            } else if writer_epoch != 0 && writer_lease_ms == 0 {
                Err(
                    LifecycleErrorModel::InvalidRequest(
                        "writer_lease_ms must be nonzero for a shared writer"@,
                    ),
                )
            } else {
                Ok(
                    new_chunk(
                        id,
                        strip_models(strips@),
                        strip_count,
                        chunk_type,
                        writer_epoch,
                        writer_lease_ms,
                        now_ms,
                    ),
                )
            }),
    {
        match self.check_range(bucket) {
            Ok(()) => {},
            Err(e) => {
                return Err(e);
            },
        }
        if writer_epoch != 0 && writer_lease_ms == 0 {
            return Err(invalid_request("writer_lease_ms must be nonzero for a shared writer"));
        }
        let mut strips = strips;
        let capacity: u32 = sum_capacity(&strips);
        assign_strip_offsets(&mut strips, 0);
        let chunk = Chunk {
            id: Some(id),
            modify_ts: 1,
            state: ChunkState::Active,
            create_ts_ms: now_ms,
            sealed_ts_ms: 0,
            capacity,
            sealed_length: 0,
            strips,
            chunk_type,
            writer_epoch,
            acknowledged_cursor: 0,
            closed_strip_sequence: None,
            writer_lease_deadline_ms: writer_lease_deadline(now_ms, writer_epoch, writer_lease_ms),
            next_strip_sequence: strip_count,
            cleanup_intents: Vec::new(),
            last_strip_replacement: None,
        };
        assert(chunk@.cleanup_intents =~= Seq::<IntentModel>::empty());
        Ok(chunk)
    }

    /// Advance the durable cursor of an exclusively owned shared chunk.
    pub fn advance_chunk_write(
        &self,
        chunk: &Chunk,
        bucket: u16,
        writer_epoch: u64,
        expected_modify_ts: u64,
        acknowledged_cursor: u64,
        closed_strip_sequence: Option<u32>,
        writer_lease_ms: u64,
        now_ms: u64,
    ) -> (r: Result<Chunk, LifecycleError>)
        ensures
            chunk_result(r) == (if range_refusal(self, bucket) is Some {
                Err(range_refusal(self, bucket)->0)
            } else {
                advanced(
                    chunk@,
                    writer_epoch,
                    expected_modify_ts,
                    acknowledged_cursor,
                    closed_strip_sequence,
                    writer_lease_ms,
                    now_ms,
                )
            }),
    {
        match self.check_range(bucket) {
            Ok(()) => {},
            Err(e) => {
                return Err(e);
            },
        }
        if writer_epoch == 0 || writer_lease_ms == 0 {
            return Err(invalid_request("writer epoch and lease must be nonzero"));
        }
        match chunk.state.check_can_append() {
            Ok(()) => {},
            Err(e) => {
                return Err(LifecycleError::InvalidStateTransition(e));
            },
        }
        if chunk.writer_epoch != writer_epoch || chunk.modify_ts != expected_modify_ts {
            return Err(LifecycleError::StateConflict);
        }
        let capacity_bytes: u64 = (chunk.capacity as u64) * 1024;
        if acknowledged_cursor <= chunk.acknowledged_cursor || acknowledged_cursor > capacity_bytes {
            let mut message = text_two_numbers(
                "acknowledged cursor ",
                acknowledged_cursor,
                " must advance beyond ",
                chunk.acknowledged_cursor,
            );
            message.append(" within capacity ");
            push_decimal(&mut message, capacity_bytes);
            return Err(LifecycleError::InvalidRequest(message));
        }
        let mut next = chunk.clone();
        match closed_strip_sequence {
            Some(sequence) => {
                match chunk.closed_strip_sequence {
                    Some(current) => {
                        if sequence < current {
                            return Err(
                                invalid_request("closed strip sequence cannot move backward"),
                            );
                        }
                    },
                    None => {},
                }
                match find_sequence(&chunk.strips, sequence) {
                    None => {
                        return Err(
                            LifecycleError::StripIndexOutOfRange {
                                index: sequence,
                                len: chunk.strips.len(),
                            },
                        );
                    },
                    Some(i) => {
                        let strip = &chunk.strips[i];
                        assert(chunk@.strips[i as int] == strip@);
                        let strip_end: u64 = (sat_add_u32(strip.chunk_offset, strip.capacity) as u64)
                            * 1024;
                        if strip_end > acknowledged_cursor {
                            return Err(
                                invalid_request("closed strip extends beyond acknowledged cursor"),
                            );
                        }
                    },
                }
                close_strips_through(&mut next.strips, sequence, now_ms);
                next.closed_strip_sequence = Some(sequence);
            },
            None => {},
        }
        next.acknowledged_cursor = acknowledged_cursor;
        next.writer_lease_deadline_ms = sat_add_u64(now_ms, writer_lease_ms);
        next.modify_ts = sat_add_u64(next.modify_ts, 1);
        Ok(next)
    }

    /// Pause before the next write of a new chunk, none where the allocation is
    /// given up: it doubles from 1 ms up to 50 ms.
    pub fn persist_backoff_ms(attempt: u32) -> (r: Option<u64>)
        ensures
            r == (if attempt + 1 >= MAX_PERSIST_ATTEMPTS {
                None::<u64>
            } else if attempt < 6 {
                Some(1u64 << (attempt as u64))
            } else {
                Some(50u64)
            }),
    {
        if attempt >= MAX_PERSIST_ATTEMPTS - 1 {
            None
        } else if attempt < 6 {
            Some(1u64 << (attempt as u64))
        } else {
            Some(50)
        }
    }

    /// Decide an append: refuse it, answer a stale caller, or name the strips to
    /// allocate.
    pub fn plan_append(
        &self,
        chunk: &Chunk,
        bucket: u16,
        observed_modify_ts: u64,
        strip_count: u32,
        strip_type: StripType,
        data_num: u32,
        code_num: u32,
        copy_count: u32,
        unit_count: u32,
    ) -> (r: Result<AppendPlan, LifecycleError>)
        ensures
            match r {
                Err(e) => if range_refusal(self, bucket) is Some {
                    e@ == range_refusal(self, bucket)->0
                } else if chunk@.state != ChunkState::Active {
                    e@ == inactive_refusal(chunk@.state)
                } else {
                    observed_modify_ts == chunk@.modify_ts && append_start(chunk@) + strip_count
                        > u32::MAX && e@ == LifecycleErrorModel::InvalidRequest(
                        "chunk strip sequence space exhausted"@,
                    )
                },
                Ok(AppendPlan::Stale(outcome)) => range_refusal(self, bucket) is None
                    && chunk@.state == ChunkState::Active && observed_modify_ts != chunk@.modify_ts
                    && outcome.modify_ts == chunk@.modify_ts && outcome.strips@.len() == 0 && (
                outcome.chunk matches Some(whole) && whole@ == chunk@),
                Ok(AppendPlan::Allocate(spec)) => range_refusal(self, bucket) is None
                    && chunk@.state == ChunkState::Active && observed_modify_ts == chunk@.modify_ts
                    && append_start(chunk@) + strip_count <= u32::MAX && spec == (StripBatchSpec {
                    strip_type: requested_layout(strip_type, data_num, code_num, copy_count),
                    unit_count,
                    start_sequence: append_start(chunk@),
                    strip_count,
                }),
            },
    {
        match self.check_range(bucket) {
            Ok(()) => {},
            Err(e) => {
                return Err(e);
            },
        }
        match chunk.state.check_can_append() {
            Ok(()) => {},
            Err(e) => {
                return Err(LifecycleError::InvalidStateTransition(e));
            },
        }
        if observed_modify_ts != chunk.modify_ts {
            return Ok(
                AppendPlan::Stale(
                    AppendChunkOutcome {
                        modify_ts: chunk.modify_ts,
                        strips: Vec::new(),
                        chunk: Some(chunk.clone()),
                    },
                ),
            );
        }
        let start_sequence: u32 = start_of_append(chunk);
        if strip_count > u32::MAX - start_sequence {
            return Err(invalid_request("chunk strip sequence space exhausted"));
        }
        Ok(
            AppendPlan::Allocate(
                StripBatchSpec {
                    strip_type: layout_of_request(strip_type, data_num, code_num, copy_count),
                    unit_count,
                    start_sequence,
                    strip_count,
                },
            ),
        )
    }

    /// Append allocated and committed strips to an active chunk: the record to
    /// store and the answer.
    pub fn append_chunk(chunk: &Chunk, strips: Vec<ChunkStrip>, strip_count: u32) -> (r: (
        Chunk,
        AppendChunkOutcome,
    ))
        requires
            strips@.len() == strip_count,
            numbered_from(strip_models(strips@), append_start(chunk@)),
            append_start(chunk@) + strip_count <= u32::MAX,
            total_capacity(chunk@.strips) + total_capacity(strip_models(strips@)) <= u32::MAX,
        ensures
            r.0@ == appended(chunk@, strip_models(strips@), strip_count),
            r.1.modify_ts == clip_u64(chunk@.modify_ts + 1),
            strip_models(r.1.strips@) == placed_from(strip_models(strips@), chunk@.capacity),
            r.1.chunk is None,
    {
        let ghost models = strip_models(strips@);
        proof {
            lemma_capacity_nonnegative(chunk@.strips);
            lemma_placed_total(models, chunk.capacity);
            lemma_capacity_concat(chunk@.strips, placed_from(models, chunk.capacity));
        }
        let mut strips = strips;
        assign_strip_offsets(&mut strips, chunk.capacity);
        let mut next = chunk.clone();
        append_strips(&mut next.strips, &strips);
        next.next_strip_sequence = start_of_append(chunk) + strip_count;
        next.capacity = sum_capacity(&next.strips);
        next.modify_ts = sat_add_u64(next.modify_ts, 1);
        let outcome = AppendChunkOutcome { modify_ts: next.modify_ts, strips, chunk: None };
        (next, outcome)
    }

    /// Seal a chunk: no more appends allowed.
    pub fn seal_chunk(&self, chunk: &Chunk, bucket: u16, seal_length: u32, now_ms: u64) -> (r: Result<
        Chunk,
        LifecycleError,
    >)
        ensures
            chunk_result(r) == (if range_refusal(self, bucket) is Some {
                Err(range_refusal(self, bucket)->0)
            } else {
                sealed(chunk@, seal_length, now_ms)
            }),
    {
        match self.check_range(bucket) {
            Ok(()) => {},
            Err(e) => {
                return Err(e);
            },
        }
        match chunk.state.check_can_seal() {
            Ok(()) => {},
            Err(e) => {
                return Err(LifecycleError::InvalidStateTransition(e));
            },
        }
        if seal_length > chunk.capacity {
            return Err(
                LifecycleError::InvalidRequest(
                    text_two_numbers(
                        "seal_length ",
                        seal_length as u64,
                        " exceeds chunk capacity ",
                        chunk.capacity as u64,
                    ),
                ),
            );
        }
        let mut next = chunk.clone();
        next.state = ChunkState::Sealed;
        next.modify_ts = sat_add_u64(next.modify_ts, 1);
        next.sealed_length = seal_length;
        next.sealed_ts_ms = now_ms;
        seal_written_ec_strips(&mut next.strips, seal_length, now_ms);
        close_acknowledged_strips(&mut next, now_ms);
        Ok(next)
    }

    /// Delete a chunk: marks it deleted and frees its segments. Repeated deletion
    /// answers with the tombstone, so that retries are idempotent.
    pub fn delete_chunk(&self, chunk: &Chunk, bucket: u16) -> (r: Result<DeleteStep, LifecycleError>)
        ensures
            (match r {
                Ok(step) => Ok(step@),
                Err(error) => Err(error@),
            }) == (if range_refusal(self, bucket) is Some {
                Err(range_refusal(self, bucket)->0)
            } else {
                deletion(chunk@)
            }),
    {
        match self.check_range(bucket) {
            Ok(()) => {},
            Err(e) => {
                return Err(e);
            },
        }
        if chunk.state == ChunkState::Deleted {
            if chunk.strips.len() == 0 {
                return Ok(DeleteStep::Done(chunk.clone()));
            }
            let segments = extract_all_segments(&chunk.strips);
            let mut emptied = chunk.clone();
            emptied.strips = Vec::new();
            emptied.capacity = 0;
            assert(emptied@.strips =~= Seq::<StripModel>::empty());
            return Ok(DeleteStep::Free { segments, emptied });
        }
        match chunk.state.check_can_delete() {
            Ok(()) => {},
            Err(e) => {
                return Err(LifecycleError::InvalidStateTransition(e));
            },
        }
        let segments = extract_all_segments(&chunk.strips);
        let mut tombstone = chunk.clone();
        tombstone.state = ChunkState::Deleted;
        tombstone.modify_ts = sat_add_u64(tombstone.modify_ts, 1);
        let mut emptied = tombstone.clone();
        emptied.strips = Vec::new();
        emptied.capacity = 0;
        assert(emptied@.strips =~= Seq::<StripModel>::empty());
        Ok(DeleteStep::Publish { tombstone, segments, emptied })
    }

    /// Delete a range within an active chunk: strips that overlap it leave the
    /// record, and their segments become free after the write.
    pub fn delete_chunk_range(&self, chunk: &Chunk, bucket: u16, offset: u32, size: u32) -> (r:
        Result<RangeDeletion, LifecycleError>)
        requires
            offset + size <= u32::MAX ==> total_capacity(
                strips_by_overlap(chunk@.strips, offset, (offset + size) as u32, false),
            ) <= u32::MAX,
        ensures
            (match r {
                Ok(deletion) => Ok((deletion.chunk@, deletion.segments@)),
                Err(error) => Err(error@),
            }) == (if range_refusal(self, bucket) is Some {
                Err(range_refusal(self, bucket)->0)
            } else {
                range_deletion(chunk@, offset, size)
            }),
    {
        match self.check_range(bucket) {
            Ok(()) => {},
            Err(e) => {
                return Err(e);
            },
        }
        if size == 0 {
            return Err(invalid_request("delete range size must be non-zero"));
        }
        match chunk.state.check_can_append() {
            Ok(()) => {},
            Err(e) => {
                return Err(LifecycleError::InvalidStateTransition(e));
            },
        }
        if size > u32::MAX - offset {
            return Err(invalid_request("delete range overflows u32"));
        }
        let end: u32 = offset + size;
        let ghost models = chunk@.strips;
        let mut kept: Vec<ChunkStrip> = Vec::new();
        let mut gone: Vec<ChunkStrip> = Vec::new();
        let mut i: usize = 0;
        assert(strip_models(kept@) =~= Seq::<StripModel>::empty());
        while i < chunk.strips.len()
            invariant
                i <= chunk.strips.len(),
                models == strip_models(chunk.strips@),
                strip_models(kept@) == strips_by_overlap(models.take(i as int), offset, end, false),
                strip_models(gone@) == strips_by_overlap(models.take(i as int), offset, end, true),
            decreases chunk.strips.len() - i,
        {
            let strip = &chunk.strips[i];
            proof {
                assert(models.take(i + 1).drop_last() =~= models.take(i as int));
                assert(models.take(i + 1).last() == strip@);
            }
            let strip_end: u32 = sat_add_u32(strip.chunk_offset, strip.capacity);
            let ghost kept_before = kept@;
            let ghost gone_before = gone@;
            if strip.chunk_offset < end && offset < strip_end {
                gone.push(strip.clone());
                assert(strip_models(gone@) =~= strip_models(gone_before).push(strip@));
            } else {
                kept.push(strip.clone());
                assert(strip_models(kept@) =~= strip_models(kept_before).push(strip@));
            }
            i = i + 1;
        }
        proof {
            assert(models.take(i as int) =~= models);
        }
        let segments = extract_all_segments(&gone);
        let mut next = chunk.clone();
        next.capacity = sum_capacity(&kept);
        next.strips = kept;
        next.modify_ts = sat_add_u64(next.modify_ts, 1);
        Ok(RangeDeletion { chunk: next, segments })
    }

    /// Replace one strip under the revision that the record has: the range
    /// replacement of that strip with an identity made of both.
    pub fn update_chunk_strip(
        &self,
        chunk: &Chunk,
        chunk_id: &ChunkId,
        bucket: u16,
        strip_index: u32,
        new_strip: ChunkStrip,
        now_ms: u64,
    ) -> (r: Result<ReplaceOutcome, LifecycleError>)
        requires
            total_capacity(chunk@.strips) <= u32::MAX,
        ensures
            replace_result(r) == (if strip_index >= chunk@.strips.len() {
                Err(
                    LifecycleErrorModel::StripIndexOutOfRange {
                        index: strip_index,
                        len: chunk@.strips.len() as usize,
                    },
                )
            } else if range_refusal(self, bucket) is Some {
                Err(range_refusal(self, bucket)->0)
            } else {
                replacement_of(
                    chunk@,
                    *chunk_id,
                    chunk@.modify_ts,
                    strip_index,
                    seq![chunk@.strips[strip_index as int]],
                    seq![new_strip@],
                    update_operation_id(*chunk_id, chunk@.modify_ts, strip_index),
                    clip_u64(now_ms + self.layout_validity_ms),
                )
            }),
    {
        let index: usize = strip_index as usize;
        if index >= chunk.strips.len() {
            return Err(
                LifecycleError::StripIndexOutOfRange {
                    index: strip_index,
                    len: chunk.strips.len(),
                },
            );
        }
        let operation_id = ChunkId {
            high: chunk_id.high ^ chunk.modify_ts,
            low: chunk_id.low ^ (strip_index as u64),
        };
        let mut old_strips: Vec<ChunkStrip> = Vec::new();
        old_strips.push(chunk.strips[index].clone());
        let mut replacement: Vec<ChunkStrip> = Vec::new();
        replacement.push(new_strip);
        proof {
            assert(strip_models(old_strips@) =~= seq![chunk@.strips[strip_index as int]]);
            assert(strip_models(replacement@) =~= seq![new_strip@]);
            let one = seq![new_strip@];
            assert(one.drop_last() =~= Seq::<StripModel>::empty());
            assert(total_capacity(one.drop_last()) == 0);
        }
        self.replace_chunk_strip_range(
            chunk,
            chunk_id,
            bucket,
            chunk.modify_ts,
            strip_index,
            &old_strips,
            &replacement,
            operation_id,
            now_ms,
        )
    }

    /// Atomically replace a capacity-compatible strip range under a revision
    /// fence. Newly introduced segments are committed before publication;
    /// removed segments stay allocated until the reader-layout grace expires.
    pub fn replace_chunk_strip_range(
        &self,
        chunk: &Chunk,
        chunk_id: &ChunkId,
        bucket: u16,
        expected_modify_ts: u64,
        start_index: u32,
        old_strips: &[ChunkStrip],
        replacement_strips: &[ChunkStrip],
        operation_id: ChunkId,
        now_ms: u64,
    ) -> (r: Result<ReplaceOutcome, LifecycleError>)
        requires
            total_capacity(chunk@.strips) <= u32::MAX,
            total_capacity(strip_models(replacement_strips@)) <= u32::MAX,
        ensures
            replace_result(r) == (if range_refusal(self, bucket) is Some {
                Err(range_refusal(self, bucket)->0)
            } else {
                replacement_of(
                    chunk@,
                    *chunk_id,
                    expected_modify_ts,
                    start_index,
                    strip_models(old_strips@),
                    strip_models(replacement_strips@),
                    operation_id,
                    clip_u64(now_ms + self.layout_validity_ms),
                )
            }),
    {
        match self.check_range(bucket) {
            Ok(()) => {},
            Err(e) => {
                return Err(e);
            },
        }
        if old_strips.len() == 0 || replacement_strips.len() == 0 {
            return Err(invalid_request("strip replacement ranges must be non-empty"));
        }
        if chunk.state != ChunkState::Active && chunk.state != ChunkState::Sealed {
            return Err(
                LifecycleError::InvalidStateTransition(
                    StateTransitionError {
                        from: chunk.state,
                        expected: ExpectedState::ActiveOrSealed,
                    },
                ),
            );
        }
        let start: usize = start_index as usize;
        let len: usize = chunk.strips.len();
        if start > len || old_strips.len() > len - start {
            return Err(LifecycleError::StripIndexOutOfRange { index: start_index, len });
        }
        let end: usize = start + old_strips.len();
        let ghost old_models = strip_models(old_strips@);
        let ghost new_models = strip_models(replacement_strips@);
        if chunk.modify_ts == sat_add_u64(expected_modify_ts, 1) && chunk.last_strip_replacement
            == Some(operation_id) && strips_at(&chunk.strips, start, replacement_strips) {
            return Ok(ReplaceOutcome::Applied(chunk.clone()));
        }
        if chunk.modify_ts != expected_modify_ts || !strips_at(&chunk.strips, start, old_strips) {
            return Err(LifecycleError::StateConflict);
        }
        proof {
            let before = chunk@.strips.take(start as int);
            let middle = chunk@.strips.subrange(start as int, end as int);
            let after = chunk@.strips.skip(end as int);
            assert(chunk@.strips =~= before + middle + after);
            lemma_capacity_concat(before, middle);
            lemma_capacity_concat(before + middle, after);
            lemma_capacity_concat(before, new_models);
            lemma_capacity_concat(before + new_models, after);
            lemma_capacity_nonnegative(before);
            lemma_capacity_nonnegative(middle);
            lemma_capacity_nonnegative(after);
            assert(middle == old_models);
        }
        match validate_replacement_geometry(old_strips, replacement_strips, chunk_id) {
            Ok(()) => {},
            Err(e) => {
                return Err(e);
            },
        }
        let next_strip_sequence: u32 = match validate_replacement_sequences(
            chunk,
            start,
            end,
            replacement_strips,
        ) {
            Ok(next) => next,
            Err(e) => {
                return Err(e);
            },
        };
        let old_segments = extract_all_segments(old_strips);
        let new_segments = extract_all_segments(replacement_strips);
        let commit = segments_without(&new_segments, &old_segments);
        let retired = segments_without(&old_segments, &new_segments);
        let mut strips = copy_strip_range(&chunk.strips, 0, start);
        append_strips(&mut strips, replacement_strips);
        let tail = copy_strip_range(&chunk.strips, end, len);
        append_strips(&mut strips, &tail);
        proof {
            assert(chunk@.strips.subrange(0, start as int) =~= chunk@.strips.take(start as int));
            assert(chunk@.strips.subrange(end as int, len as int) =~= chunk@.strips.skip(end as int));
            assert(strip_models(strips@) == chunk@.strips.take(start as int) + new_models
                + chunk@.strips.skip(end as int));
        }
        let mut next = chunk.clone();
        next.capacity = sum_capacity(&strips);
        next.strips = strips;
        next.next_strip_sequence = next_strip_sequence;
        next.modify_ts = sat_add_u64(next.modify_ts, 1);
        next.last_strip_replacement = Some(operation_id);
        if retired.len() > 0 {
            let ghost intents_before = next.cleanup_intents@;
            let intent = StripCleanupIntent {
                operation_id: Some(operation_id),
                retired_segments: retired,
                not_before_ms: sat_add_u64(now_ms, self.layout_validity_ms),
            };
            let ghost intent_model = intent@;
            next.cleanup_intents.push(intent);
            assert(intent_models(next.cleanup_intents@) =~= intent_models(intents_before).push(
                intent_model,
            ));
        }
        Ok(ReplaceOutcome::Publish { commit, chunk: next })
    }

    /// Constraints of one replacement segment for an in-place mirror repair: the
    /// nodes of the surviving segments are excluded.
    pub fn replacement_constraints(
        &self,
        snap: &TopologySnapshot,
        chunk_id: &ChunkId,
        bucket: u16,
        old_segment: &Segment,
        surviving_segments: &[Segment],
    ) -> (r: Result<PlacementConstraints, LifecycleError>)
        ensures
            (match r {
                Ok(constraints) => Ok(constraints@),
                Err(error) => Err(error@),
            }) == (if range_refusal(self, bucket) is Some {
                Err(range_refusal(self, bucket)->0)
            } else if old_segment.owner_chunk != Some(*chunk_id) || old_segment.unit_count == 0 {
                Err(
                    LifecycleErrorModel::InvalidRequest(
                        "replacement geometry must belong to the chunk"@,
                    ),
                )
            } else {
                Ok(
                    ConstraintsModel {
                        exclude_nodes: surviving_nodes(
                            snap.disk_groups.order(),
                            surviving_segments@,
                        ),
                        ..self.spec_constraints()
                    },
                )
            }),
    {
        match self.check_range(bucket) {
            Ok(()) => {},
            Err(e) => {
                return Err(e);
            },
        }
        if old_segment.owner_chunk != Some(*chunk_id) || old_segment.unit_count == 0 {
            return Err(invalid_request("replacement geometry must belong to the chunk"));
        }
        let mut constraints = self.placement_constraints();
        let groups = snap.disk_groups();
        let mut i: usize = 0;
        while i < groups.len()
            invariant
                i <= groups.len(),
                groups@ == snap.disk_groups.order(),
                constraints@ == (ConstraintsModel {
                    exclude_nodes: surviving_nodes(groups@.take(i as int), surviving_segments@),
                    ..self.spec_constraints()
                }),
            decreases groups.len() - i,
        {
            proof {
                assert(groups@.take(i + 1).drop_last() =~= groups@.take(i as int));
                assert(groups@.take(i + 1).last() == groups@[i as int]);
            }
            if holds_any(&groups[i], surviving_segments) {
                constraints = constraints.exclude_node(groups[i].node_id);
            }
            i = i + 1;
        }
        assert(groups@.take(i as int) =~= groups@);
        Ok(constraints)
    }

    /// Decide the release of a tentative replacement: only one that was never
    /// published may be freed.
    pub fn discard_replacement_segment(
        &self,
        chunk: &Chunk,
        chunk_id: &ChunkId,
        bucket: u16,
        segment: Segment,
    ) -> (r: Result<(), LifecycleError>)
        ensures
            (match r {
                Ok(()) => Ok(()),
                Err(error) => Err(error@),
            }) == (if range_refusal(self, bucket) is Some {
                Err(range_refusal(self, bucket)->0)
            } else if segment.owner_chunk != Some(*chunk_id) {
                Err(
                    LifecycleErrorModel::InvalidRequest(
                        "discarded replacement does not belong to chunk"@,
                    ),
                )
            } else if all_segments(chunk@.strips).contains(segment) {
                Err(LifecycleErrorModel::StateConflict)
            } else {
                Ok(())
            }),
    {
        match self.check_range(bucket) {
            Ok(()) => {},
            Err(e) => {
                return Err(e);
            },
        }
        if segment.owner_chunk != Some(*chunk_id) {
            return Err(invalid_request("discarded replacement does not belong to chunk"));
        }
        let current = extract_all_segments(&chunk.strips);
        if contains_segment(&current, &segment) {
            return Err(LifecycleError::StateConflict);
        }
        Ok(())
    }

    /// What a query answers to a storage error.
    pub fn query_error(error: StoreError) -> (r: LifecycleError)
        ensures
            r@ == (if error@ == StoreErrorModel::ChunkNotFound {
                LifecycleErrorModel::ChunkNotFound
            } else {
                LifecycleErrorModel::Storage(error@)
            }),
    {
        match error {
            StoreError::ChunkNotFound => LifecycleError::ChunkNotFound,
            other => LifecycleError::Storage(other),
        }
    }

    /// Decide what one chunk needs to finish interrupted operations: due cleanup
    /// intents, an allocation that was not activated, a deletion that still owns
    /// segments.
    pub fn reconcile_chunk(chunk: &Chunk, now_ms: u64) -> (r: ReconcilePlan)
        ensures
            r.frees@.len() == due_frees(
                chunk@.cleanup_intents,
                all_segments(chunk@.strips),
                now_ms,
            ).len(),
            forall|i: int|
                0 <= i < r.frees@.len() ==> (#[trigger] r.frees@[i])@ == due_frees(
                    chunk@.cleanup_intents,
                    all_segments(chunk@.strips),
                    now_ms,
                )[i],
            match r.cleaned {
                Some(cleaned) => r.frees@.len() > 0 && cleaned@ == cleaned_chunk(chunk@, now_ms),
                None => r.frees@.len() == 0,
            },
            is_reconcile_step(r.step, cleaned_chunk(chunk@, now_ms)),
    {
        let current = extract_all_segments(&chunk.strips);
        let ghost intents = chunk@.cleanup_intents;
        let mut pending: Vec<StripCleanupIntent> = Vec::new();
        let mut frees: Vec<Vec<Segment>> = Vec::new();
        let mut i: usize = 0;
        assert(intent_models(pending@) =~= Seq::<IntentModel>::empty());
        while i < chunk.cleanup_intents.len()
            invariant
                i <= chunk.cleanup_intents.len(),
                intents == intent_models(chunk.cleanup_intents@),
                intent_models(pending@) == pending_intents(intents.take(i as int), now_ms),
                frees@.len() == due_frees(intents.take(i as int), current@, now_ms).len(),
                forall|j: int|
                    0 <= j < frees@.len() ==> (#[trigger] frees@[j])@ == due_frees(
                        intents.take(i as int),
                        current@,
                        now_ms,
                    )[j],
            decreases chunk.cleanup_intents.len() - i,
        {
            let intent = &chunk.cleanup_intents[i];
            proof {
                assert(intents.take(i + 1).drop_last() =~= intents.take(i as int));
                assert(intents.take(i + 1).last() == intent@);
            }
            let ghost pending_before = pending@;
            if intent.not_before_ms > now_ms {
                pending.push(intent.clone());
                assert(intent_models(pending@) =~= intent_models(pending_before).push(intent@));
            } else {
                let retired = drop_referenced(&intent.retired_segments, &current);
                frees.push(retired);
            }
            i = i + 1;
        }
        proof {
            assert(intents.take(i as int) =~= intents);
            lemma_pending_shorter(intents, current@, now_ms);
        }
        let mut next = chunk.clone();
        next.cleanup_intents = pending;
        assert(next@ == cleaned_chunk(chunk@, now_ms));
        let step = if chunk.state == ChunkState::Init {
            let mut active = next.clone();
            active.state = ChunkState::Active;
            ReconcileStep::Activate { segments: current, chunk: active }
        } else if chunk.state == ChunkState::Deleted && chunk.strips.len() > 0 {
            let mut emptied = next.clone();
            emptied.strips = Vec::new();
            emptied.capacity = 0;
            assert(emptied@.strips =~= Seq::<StripModel>::empty());
            ReconcileStep::Clear { segments: current, chunk: emptied }
        } else {
            ReconcileStep::Nothing
        };
        let cleaned = if frees.len() > 0 {
            Some(next)
        } else {
            None
        };
        ReconcilePlan { frees, cleaned, step }
    }

    /// Seal an active shared chunk whose writer lease expired; any other chunk
    /// is left alone.
    pub fn seal_expired_writer_chunk(chunk: &Chunk, now_ms: u64) -> (r: Option<Chunk>)
        ensures
            match r {
                Some(next) => writer_expired(chunk@, now_ms) && next@ == sealed_at_cursor(
                    chunk@,
                    now_ms,
                ),
                None => !writer_expired(chunk@, now_ms),
            },
    {
        if chunk.state != ChunkState::Active || chunk.writer_epoch == 0
            || chunk.writer_lease_deadline_ms > now_ms {
            return None;
        }
        let mut next = chunk.clone();
        next.state = ChunkState::Sealed;
        next.modify_ts = sat_add_u64(next.modify_ts, 1);
        next.sealed_ts_ms = now_ms;
        let units: u64 = div_ceil_u64(next.acknowledged_cursor, 1024);
        next.sealed_length = if units > u32::MAX as u64 {
            u32::MAX
        } else {
            units as u32
        };
        close_acknowledged_strips(&mut next, now_ms);
        Some(next)
    }
}

/// The segments that are in use by none of the strips, in order.
pub fn drop_referenced(segments: &[Segment], current: &[Segment]) -> (r: Vec<Segment>)
    ensures
        r@ == unreferenced(segments@, current@),
{
    let mut out: Vec<Segment> = Vec::new();
    let mut i: usize = 0;
    while i < segments.len()
        invariant
            i <= segments.len(),
            out@ == unreferenced(segments@.take(i as int), current@),
        decreases segments.len() - i,
    {
        assert(segments@.take(i + 1).drop_last() =~= segments@.take(i as int));
        if !contains_segment(current, &segments[i]) {
            out.push(segments[i]);
        }
        i = i + 1;
    }
    assert(segments@.take(i as int) =~= segments@);
    out
}

/// Where the next page of a scan begins: behind the last chunk of a full page,
/// else at the start again.
pub open spec fn cursor_after(current: Option<ChunkId>, chunks: Seq<ChunkModel>, limit: u32) -> Option<
    ChunkId,
> {
    if chunks.len() < limit || chunks.len() == 0 {
        None
    } else {
        match chunks.last().id {
            Some(id) => Some(id),
            None => current,
        }
    }
}

/// Models of a run of chunks.
pub open spec fn chunk_models(chunks: Seq<Chunk>) -> Seq<ChunkModel> {
    Seq::new(chunks.len(), |i: int| chunks[i]@)
}

/// Where the next page of a scan begins.
pub fn scan_cursor_after(current: Option<ChunkId>, chunks: &[Chunk], limit: u32) -> (r: Option<ChunkId>)
    ensures
        r == cursor_after(current, chunk_models(chunks@), limit),
{
    let n: usize = chunks.len();
    if n < limit as usize || n == 0 {
        return None;
    }
    assert(chunk_models(chunks@).last() == chunks@[n - 1]@);
    match chunks[n - 1].id {
        Some(id) => Some(id),
        None => current,
    }
}

} // verus!
