//! Durable admission of strip repairs.
use vstd::prelude::*;
use crate::arith::{
    clip_u64, clip_usize, rotate_left_u64, rotated_left, sat_add_u64, sat_add_usize, sat_mul_u64,
};
use crate::lifecycle::error::{LifecycleError, LifecycleErrorModel};
use crate::order::{sort_stable, stable_sorted, SortKey};
use crate::task::manager::{claim_owned, stored_model};
use crate::task::store::{TaskStoreError, TaskStoreErrorModel};
use crate::task::{ChunkTaskState, ChunkTaskValue, TaskKind, TaskModel, TaskVersions};
use crate::text::text;
use crate::types::{
    copy_segments, strip_models, Chunk, ChunkId, ChunkStrip, DiskId, Segment, StripModel,
};

pub mod attempt;

pub mod effects;

pub mod run;

verus! {

/// Version of the repair checkpoint.
pub const REPAIR_STRIP_TASK_VERSION: u16 = 1;

/// Checkpoint of a strip repair.
#[derive(Debug)]
pub struct RepairStripTaskV1 {
    pub chunk_id: ChunkId,
    pub strip_sequence: u32,
    pub failed_segments: Vec<Segment>,
}

/// Model of a repair checkpoint.
pub struct RepairModel {
    pub chunk_id: ChunkId,
    pub strip_sequence: u32,
    pub failed_segments: Seq<Segment>,
}

impl View for RepairStripTaskV1 {
    type V = RepairModel;

    open spec fn view(&self) -> RepairModel {
        RepairModel {
            chunk_id: self.chunk_id,
            strip_sequence: self.strip_sequence,
            failed_segments: self.failed_segments@,
        }
    }
}

/// Repair error.
#[derive(Debug)]
pub enum RepairError {
    Lifecycle(LifecycleError),
    Store(TaskStoreError),
    Payload(String),
}

/// Model of a repair error.
pub enum RepairErrorModel {
    Lifecycle(LifecycleErrorModel),
    Store(TaskStoreErrorModel),
    Payload(Seq<char>),
}

impl View for RepairError {
    type V = RepairErrorModel;

    open spec fn view(&self) -> RepairErrorModel {
        match self {
            RepairError::Lifecycle(e) => RepairErrorModel::Lifecycle(e@),
            RepairError::Store(e) => RepairErrorModel::Store(e@),
            RepairError::Payload(m) => RepairErrorModel::Payload(m@),
        }
    }
}

impl RepairErrorModel {
    /// Text of the error.
    pub open spec fn message(self) -> Seq<char> {
        match self {
            RepairErrorModel::Lifecycle(e) => e.message(),
            RepairErrorModel::Store(e) => e.message(),
            RepairErrorModel::Payload(m) => "repair task payload is invalid: "@ + m,
        }
    }
}

impl RepairError {
    /// Text of the error.
    pub fn message(&self) -> (r: String)
        ensures
            r@ == self@.message(),
    {
        match self {
            RepairError::Lifecycle(e) => e.message(),
            RepairError::Store(e) => e.message(),
            RepairError::Payload(m) => {
                let mut out = text("repair task payload is invalid: ");
                out.append(m.as_str());
                out
            },
        }
    }
}

/// The disk of a segment, the zero disk where it names none.
pub open spec fn disk_or_zero(segment: Segment) -> DiskId {
    match segment.disk_id {
        Some(disk) => disk,
        None => DiskId { high: 0, low: 0 },
    }
}

fn disk_of(segment: &Segment) -> (r: DiskId)
    ensures
        r == disk_or_zero(*segment),
{
    match segment.disk_id {
        Some(disk) => disk,
        None => DiskId { high: 0, low: 0 },
    }
}

/// Segments are ordered by disk, zone, offset and allocation time.
pub open spec fn segment_before(a: Segment, b: Segment) -> bool {
    let (da, db) = (disk_or_zero(a), disk_or_zero(b));
    da.high < db.high || (da.high == db.high && (da.low < db.low || (da.low == db.low && (
    a.zone_index < b.zone_index || (a.zone_index == b.zone_index && (a.unit_offset < b.unit_offset
        || (a.unit_offset == b.unit_offset && a.allocation_ts < b.allocation_ts)))))))
}

impl SortKey for Segment {
    open spec fn not_above(a: Segment, b: Segment) -> bool {
        !segment_before(b, a)
    }

    proof fn total(a: Segment, b: Segment) {
    }

    proof fn transitive(a: Segment, b: Segment, c: Segment) {
    }

    fn key_not_above(a: &Segment, b: &Segment) -> (r: bool) {
        let da = disk_of(a);
        let db = disk_of(b);
        if da.high != db.high {
            return da.high < db.high;
        }
        if da.low != db.low {
            return da.low < db.low;
        }
        if a.zone_index != b.zone_index {
            return a.zone_index < b.zone_index;
        }
        if a.unit_offset != b.unit_offset {
            return a.unit_offset < b.unit_offset;
        }
        a.allocation_ts <= b.allocation_ts
    }
}

/// One segment of each run of equal ones.
pub open spec fn deduped(segments: Seq<Segment>) -> Seq<Segment>
    decreases segments.len(),
{
    if segments.len() == 0 {
        segments
    } else {
        let front = deduped(segments.drop_last());
        if segments.len() > 1 && segments[segments.len() - 2] == segments.last() {
            front
        } else {
            front.push(segments.last())
        }
    }
}

fn dedup_segments(segments: &[Segment]) -> (r: Vec<Segment>)
    ensures
        r@ == deduped(segments@),
{
    let mut out: Vec<Segment> = Vec::new();
    let mut i: usize = 0;
    while i < segments.len()
        invariant
            i <= segments.len(),
            out@ == deduped(segments@.take(i as int)),
        decreases segments.len() - i,
    {
        proof {
            assert(segments@.take(i + 1).drop_last() =~= segments@.take(i as int));
            assert(segments@.take(i + 1).last() == segments@[i as int]);
            if i > 0 {
                assert(segments@.take(i + 1)[i - 1] == segments@[i - 1]);
            }
        }
        if i == 0 || segments[i - 1] != segments[i] {
            out.push(segments[i]);
        }
        i = i + 1;
    }
    assert(segments@.take(i as int) =~= segments@);
    out
}

/// Sorts segments by identity.
pub fn sort_segments(segments: &[Segment]) -> (r: Vec<Segment>)
    ensures
        r@ == stable_sorted(segments@),
{
    sort_stable(copy_segments(segments))
}

/// The marked segments of a strip in the order of their identities, without
/// repetitions.
pub open spec fn failed_of(strip: StripModel) -> Seq<Segment> {
    deduped(stable_sorted(strip.unavailable_segments))
}

/// The two halves of a repair task's identity.
pub open spec fn repair_id_parts(strip_sequence: u32, segments: Seq<Segment>) -> (u64, u64)
    decreases segments.len(),
{
    if segments.len() == 0 {
        (0x1110_0000_0000_0002u64 ^ (strip_sequence as u64), 0xcbf2_9ce4_8422_2325u64)
    } else {
        let (high, low) = repair_id_parts(strip_sequence, segments.drop_last());
        let segment = segments.last();
        let disk = disk_or_zero(segment);
        (
            rotated_left(high, 11) ^ disk.high ^ segment.unit_offset,
            rotated_left(low, 17) ^ disk.low ^ segment.allocation_ts ^ (segment.zone_index as u64),
        )
    }
}

/// Identity of the task that repairs these segments of a strip.
pub open spec fn repair_id(strip_sequence: u32, segments: Seq<Segment>) -> ChunkId {
    let (high, low) = repair_id_parts(strip_sequence, segments);
    ChunkId { high, low }
}

/// Identity of the task that repairs these segments of a strip.
pub fn repair_task_id(strip_sequence: u32, segments: &[Segment]) -> (r: ChunkId)
    ensures
        r == repair_id(strip_sequence, segments@),
{
    let mut high: u64 = 0x1110_0000_0000_0002u64 ^ (strip_sequence as u64);
    let mut low: u64 = 0xcbf2_9ce4_8422_2325u64;
    let mut i: usize = 0;
    assert(segments@.take(0) =~= Seq::<Segment>::empty());
    while i < segments.len()
        invariant
            i <= segments.len(),
            (high, low) == repair_id_parts(strip_sequence, segments@.take(i as int)),
        decreases segments.len() - i,
    {
        proof {
            assert(segments@.take(i + 1).drop_last() =~= segments@.take(i as int));
            assert(segments@.take(i + 1).last() == segments@[i as int]);
        }
        let segment = &segments[i];
        let disk = disk_of(segment);
        high = rotate_left_u64(high, 11) ^ disk.high ^ segment.unit_offset;
        low = rotate_left_u64(low, 17) ^ disk.low ^ segment.allocation_ts ^ (segment.zone_index as u64);
        i = i + 1;
    }
    assert(segments@.take(i as int) =~= segments@);
    ChunkId { high, low }
}

/// Identity of the strip replacement that a repair task makes.
pub open spec fn repair_operation(chunk_id: ChunkId, task_id: ChunkId) -> ChunkId {
    ChunkId {
        high: chunk_id.high ^ rotated_left(task_id.low, 7) ^ 0x1110_0a11_0000_0002u64,
        low: chunk_id.low ^ rotated_left(task_id.high, 23) ^ 0x1110_0b11_0000_0002u64,
    }
}

/// Identity of the strip replacement that a repair task makes.
pub fn repair_operation_id(chunk_id: ChunkId, task_id: ChunkId) -> (r: ChunkId)
    ensures
        r == repair_operation(chunk_id, task_id),
{
    ChunkId {
        high: chunk_id.high ^ rotate_left_u64(task_id.low, 7) ^ 0x1110_0a11_0000_0002u64,
        low: chunk_id.low ^ rotate_left_u64(task_id.high, 23) ^ 0x1110_0b11_0000_0002u64,
    }
}

/// Identity under which a repair marks further failed segments.
pub open spec fn failure_operation(operation_id: ChunkId, strip_sequence: u32) -> ChunkId {
    ChunkId {
        high: operation_id.high ^ 0xfa11_ed00_0000_0002u64,
        low: operation_id.low ^ (strip_sequence as u64),
    }
}

/// Identity under which a repair marks further failed segments.
pub fn failure_operation_id(operation_id: ChunkId, strip_sequence: u32) -> (r: ChunkId)
    ensures
        r == failure_operation(operation_id, strip_sequence),
{
    ChunkId {
        high: operation_id.high ^ 0xfa11_ed00_0000_0002u64,
        low: operation_id.low ^ (strip_sequence as u64),
    }
}

/// Repair tasks of one chunk replace under different identities, and marking
/// further failures is never taken for the repair itself.
pub proof fn law_repairs_have_own_identity(
    chunk_id: ChunkId,
    task_a: ChunkId,
    task_b: ChunkId,
    strip_sequence: u32,
)
    ensures
        task_a != task_b ==> repair_operation(chunk_id, task_a) != repair_operation(
            chunk_id,
            task_b,
        ),
        failure_operation(repair_operation(chunk_id, task_a), strip_sequence) != repair_operation(
            chunk_id,
            task_a,
        ),
{
    let (ch, cl) = (chunk_id.high, chunk_id.low);
    let (la, lb, ha, hb) = (task_a.low, task_b.low, task_a.high, task_b.high);
    assert(ch ^ ((la << 7u64) | (la >> 57u64)) ^ 0x1110_0a11_0000_0002u64 == ch ^ ((lb << 7u64) | (
    lb >> 57u64)) ^ 0x1110_0a11_0000_0002u64 ==> la == lb) by (bit_vector);
    assert(cl ^ ((ha << 23u64) | (ha >> 41u64)) ^ 0x1110_0b11_0000_0002u64 == cl ^ ((hb << 23u64) | (
    hb >> 41u64)) ^ 0x1110_0b11_0000_0002u64 ==> ha == hb) by (bit_vector);
    let high = repair_operation(chunk_id, task_a).high;
    assert(high ^ 0xfa11_ed00_0000_0002u64 != high) by (bit_vector);
}

/// A strip to repair.
#[derive(Debug)]
pub struct RepairPlan {
    pub task_id: ChunkId,
    pub payload: RepairStripTaskV1,
    pub estimated_bytes: u64,
}

/// Model of a repair plan.
pub struct RepairPlanModel {
    pub task_id: ChunkId,
    pub payload: RepairModel,
    pub estimated_bytes: u64,
}

impl View for RepairPlan {
    type V = RepairPlanModel;

    open spec fn view(&self) -> RepairPlanModel {
        RepairPlanModel {
            task_id: self.task_id,
            payload: self.payload@,
            estimated_bytes: self.estimated_bytes,
        }
    }
}

/// Bytes that repairing a strip moves: every segment and every replacement, of
/// the size of the first failed one.
pub open spec fn repair_bytes(strip: StripModel) -> u64 {
    let failed = failed_of(strip);
    let shard_bytes = if failed.len() == 0 {
        0u64
    } else {
        clip_u64(failed[0].unit_count * strip.unit_kb * 1024)
    };
    clip_u64(shard_bytes * clip_usize((strip.segments().len() + failed.len()) as int))
}

/// The repair of a strip with marked segments.
pub open spec fn plan_of(chunk_id: ChunkId, strip: StripModel) -> RepairPlanModel {
    RepairPlanModel {
        task_id: repair_id(strip.strip_sequence, failed_of(strip)),
        payload: RepairModel {
            chunk_id,
            strip_sequence: strip.strip_sequence,
            failed_segments: failed_of(strip),
        },
        estimated_bytes: repair_bytes(strip),
    }
}

/// The repairs of a run of strips, in order.
pub open spec fn plans_of(chunk_id: ChunkId, strips: Seq<StripModel>) -> Seq<RepairPlanModel>
    decreases strips.len(),
{
    if strips.len() == 0 {
        Seq::empty()
    } else {
        let front = plans_of(chunk_id, strips.drop_last());
        if strips.last().unavailable_segments.len() == 0 {
            front
        } else {
            front.push(plan_of(chunk_id, strips.last()))
        }
    }
}

fn plan_strip_repair(chunk_id: ChunkId, strip: &ChunkStrip) -> (r: RepairPlan)
    ensures
        r@ == plan_of(chunk_id, strip@),
{
    let failed = dedup_segments(&sort_segments(&strip.unavailable_segments));
    let task_id = repair_task_id(strip.strip_sequence, &failed);
    let shard_bytes: u64 = if failed.len() == 0 {
        0
    } else {
        let units: u64 = failed[0].unit_count as u64;
        let unit_kb: u64 = strip.unit_kb as u64;
        assert(0 <= units * unit_kb <= 0xffff_ffff * 0xffff_ffff) by (nonlinear_arith)
            requires
                units <= 0xffff_ffff,
                unit_kb <= 0xffff_ffff,
        ;
        sat_mul_u64(units * unit_kb, 1024)
    };
    let total: usize = match &strip.strip {
        Some(layout) => layout.segments().len(),
        None => 0,
    };
    let io_count: usize = sat_add_usize(total, failed.len());
    let estimated_bytes: u64 = sat_mul_u64(shard_bytes, io_count as u64);
    RepairPlan {
        task_id,
        payload: RepairStripTaskV1 {
            chunk_id,
            strip_sequence: strip.strip_sequence,
            failed_segments: failed,
        },
        estimated_bytes,
    }
}

/// Models of a run of repair plans.
pub open spec fn repair_plan_models(plans: Seq<RepairPlan>) -> Seq<RepairPlanModel> {
    Seq::new(plans.len(), |i: int| plans[i]@)
}

/// Turns marked segments into repair tasks.
#[derive(Debug, Clone, Copy, PartialEq, Eq, Structural)]
pub struct RepairCoordinator {}

impl RepairCoordinator {
    /// The repairs of a chunk: one for each strip with marked segments.
    pub fn admit_chunk(chunk: &Chunk) -> (r: Result<Vec<RepairPlan>, RepairError>)
        ensures
            match r {
                Ok(plans) => chunk.id is Some && repair_plan_models(plans@) == plans_of(
                    chunk.id->0,
                    chunk@.strips,
                ),
                Err(error) => chunk.id is None && error@ == RepairErrorModel::Payload(
                    "chunk has no ID"@,
                ),
            },
    {
        let chunk_id = match chunk.id {
            Some(id) => id,
            None => {
                return Err(RepairError::Payload(text("chunk has no ID")));
            },
        };
        let mut plans: Vec<RepairPlan> = Vec::new();
        let ghost models = chunk@.strips;
        let mut i: usize = 0;
        assert(repair_plan_models(plans@) =~= Seq::empty());
        while i < chunk.strips.len()
            invariant
                i <= chunk.strips.len(),
                models == strip_models(chunk.strips@),
                repair_plan_models(plans@) == plans_of(chunk_id, models.take(i as int)),
            decreases chunk.strips.len() - i,
        {
            proof {
                assert(models.take(i + 1).drop_last() =~= models.take(i as int));
                assert(models.take(i + 1).last() == chunk.strips@[i as int]@);
            }
            if chunk.strips[i].unavailable_segments.len() != 0 {
                let ghost before = plans@;
                let plan = plan_strip_repair(chunk_id, &chunk.strips[i]);
                plans.push(plan);
                assert(repair_plan_models(plans@) =~= repair_plan_models(before).push(plan@));
            }
            i = i + 1;
        }
        assert(models.take(i as int) =~= models);
        Ok(plans)
    }
}

/// A new repair task.
pub open spec fn repair_task(
    plan: RepairPlanModel,
    source_revision: u64,
    bytes: Seq<u8>,
    now_ms: u64,
    versions: TaskVersions,
) -> TaskModel {
    TaskModel {
        schema_version: versions.schema,
        task_id: plan.task_id,
        partition_id: plan.payload.chunk_id,
        kind: TaskKind::RepairStrip,
        kind_version: versions.payload,
        state: ChunkTaskState::Pending,
        priority: u8::MAX,
        revision: 1,
        operation_id: repair_operation(plan.payload.chunk_id, plan.task_id),
        source_revision,
        created_at_ms: now_ms,
        updated_at_ms: now_ms,
        eligible_at_ms: 0,
        attempt: 0,
        max_attempts: u32::MAX,
        estimated_queue_bytes: plan.estimated_bytes,
        claim_owner: 0,
        claim_generation: 0,
        claim_deadline_ms: 0,
        last_error_code: 0,
        last_error: Seq::empty(),
        payload: bytes,
    }
}

/// A new repair task; `bytes` holds the checkpoint. It outranks conversion,
/// which only reclaims space.
pub fn make_task(
    plan: &RepairPlan,
    source_revision: u64,
    bytes: Vec<u8>,
    now_ms: u64,
    versions: TaskVersions,
) -> (r: ChunkTaskValue)
    ensures
        r@ == repair_task(plan@, source_revision, bytes@, now_ms, versions),
{
    let last_error = String::new();
    assert(last_error@ =~= Seq::<char>::empty());
    ChunkTaskValue {
        schema_version: versions.schema,
        task_id: plan.task_id,
        partition_id: plan.payload.chunk_id,
        kind: TaskKind::RepairStrip,
        kind_version: versions.payload,
        state: ChunkTaskState::Pending,
        priority: u8::MAX,
        revision: 1,
        operation_id: repair_operation_id(plan.payload.chunk_id, plan.task_id),
        source_revision,
        created_at_ms: now_ms,
        updated_at_ms: now_ms,
        eligible_at_ms: 0,
        attempt: 0,
        max_attempts: u32::MAX,
        estimated_queue_bytes: plan.estimated_bytes,
        claim_owner: 0,
        claim_generation: 0,
        claim_deadline_ms: 0,
        last_error_code: 0,
        last_error,
        payload: bytes,
    }
}

/// The task that admission stores: none while the stored one is active; one
/// that ended is followed by a later revision that keeps its claim generation.
pub open spec fn readmitted(stored: Option<TaskModel>, fresh: TaskModel) -> Option<TaskModel> {
    match stored {
        None => Some(fresh),
        Some(previous) => if previous.state.spec_is_active() {
            None
        } else {
            Some(
                TaskModel {
                    revision: clip_u64(previous.revision + 1),
                    created_at_ms: previous.created_at_ms,
                    claim_generation: previous.claim_generation,
                    ..fresh
                },
            )
        },
    }
}

/// The task that admission stores, if any.
pub fn readmit(stored: Option<&ChunkTaskValue>, fresh: ChunkTaskValue) -> (r: Option<ChunkTaskValue>)
    ensures
        (match r {
            Some(task) => Some(task@),
            None => None,
        }) == readmitted(stored_model(stored), fresh@),
{
    match stored {
        None => Some(fresh),
        Some(previous) => {
            if previous.state.is_active() {
                return None;
            }
            let mut task = fresh;
            task.revision = sat_add_u64(previous.revision, 1);
            task.created_at_ms = previous.created_at_ms;
            task.claim_generation = previous.claim_generation;
            Some(task)
        },
    }
}

/// No claim of an earlier run owns a task that was admitted again.
pub proof fn law_readmission_fences_old_claims(
    previous: TaskModel,
    fresh: TaskModel,
    owner: u64,
    generation: u64,
)
    requires
        fresh.state == ChunkTaskState::Pending,
    ensures
        readmitted(Some(previous), fresh) matches Some(task) ==> !claim_owned(
            task,
            owner,
            generation,
        ) && task.claim_generation == previous.claim_generation,
{
}

} // verus!
