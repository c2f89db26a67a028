//! Fenced strip reservations of an active chunk.
//!
//! A writer reserves a group of strips ahead of its cursor, consumes and
//! confirms them one by one, and may publish a confirmed group as one
//! erasure-coded strip.
use vstd::prelude::*;
use crate::allocator::pool::DiskdbClientPool;
use crate::allocator::{StripAllocType, StripBatchSpec};
use crate::arith::{clip_u32, clip_u64, sat_add_u32, sat_add_u64, sat_mul_u32};
use crate::lifecycle::error::{invalid_request, LifecycleError, LifecycleErrorModel};
use crate::lifecycle::handler::{
    assign_strip_offsets, drop_referenced, find_sequence, inactive_refusal, lease_deadline,
    placed_from, range_refusal, strip_with_sequence, unreferenced, with_retired,
    writer_lease_deadline, LifecycleHandler,
};
use crate::lifecycle::survivors::{conversion_survivors, node_limit, select_conversion_survivors};
use crate::storage::StoreError;
use crate::topology::TopologySnapshot;
use crate::types::{
    append_strips, copy_segments, copy_strip_range, copy_strips, intent_models, layout_model,
    lemma_capacity_concat, lemma_capacity_nonnegative, strip_models, sum_capacity, total_capacity,
    Chunk, ChunkId, ChunkModel, ChunkState, ChunkStrip, EcState, EcStrip, FailureDomainPriority,
    LayoutModel, Segment, Strip, StripCleanupIntent, StripModel, StripType,
};

verus! {

/// State of one reserved strip.
#[derive(Debug, Clone, Copy, PartialEq, Eq, Structural)]
pub enum StripReservationState {
    Reserved,
    Consumed,
    Confirmed,
    Cancelled,
}

/// State as stored: a record may hold a code that names no state.
#[derive(Debug, Clone, Copy, PartialEq, Eq, Structural)]
pub enum ReservationCode {
    Known(StripReservationState),
    Unknown(i32),
}

/// What a request does to a reserved strip.
#[derive(Debug, Clone, Copy, PartialEq, Eq, Structural)]
pub enum StripReservationAction {
    Consume,
    Confirm,
    Cancel,
    Renew,
    Publish,
}

/// A group of reserved strips.
#[derive(Debug)]
pub struct StripReservationGroup {
    pub group_id: Option<ChunkId>,
    pub chunk_id: Option<ChunkId>,
    pub writer_epoch: u64,
    pub lease_generation: u64,
    pub lease_deadline_ms: u64,
    pub placement_epoch: u64,
    pub strips: Vec<ChunkStrip>,
    pub states: Vec<ReservationCode>,
    pub parity_segments: Vec<Segment>,
    pub preferred_survivors: Vec<u32>,
    pub data_num: u32,
    pub code_num: u32,
    pub planned_cursors: Vec<u64>,
    pub planned_closed_sequences: Vec<u32>,
}

/// Model of a reservation group.
pub struct GroupModel {
    pub group_id: Option<ChunkId>,
    pub chunk_id: Option<ChunkId>,
    pub writer_epoch: u64,
    pub lease_generation: u64,
    pub lease_deadline_ms: u64,
    pub placement_epoch: u64,
    pub strips: Seq<StripModel>,
    pub states: Seq<ReservationCode>,
    pub parity_segments: Seq<Segment>,
    pub preferred_survivors: Seq<u32>,
    pub data_num: u32,
    pub code_num: u32,
    pub planned_cursors: Seq<u64>,
    pub planned_closed_sequences: Seq<u32>,
}

impl View for StripReservationGroup {
    type V = GroupModel;

    open spec fn view(&self) -> GroupModel {
        GroupModel {
            group_id: self.group_id,
            chunk_id: self.chunk_id,
            writer_epoch: self.writer_epoch,
            lease_generation: self.lease_generation,
            lease_deadline_ms: self.lease_deadline_ms,
            placement_epoch: self.placement_epoch,
            strips: strip_models(self.strips@),
            states: self.states@,
            parity_segments: self.parity_segments@,
            preferred_survivors: self.preferred_survivors@,
            data_num: self.data_num,
            code_num: self.code_num,
            planned_cursors: self.planned_cursors@,
            planned_closed_sequences: self.planned_closed_sequences@,
        }
    }
}

fn copy_values<T: Copy>(values: &Vec<T>) -> (r: Vec<T>)
    ensures
        r@ == values@,
{
    let mut out: Vec<T> = Vec::new();
    let mut i: usize = 0;
    while i < values.len()
        invariant
            i <= values.len(),
            out@ == values@.take(i as int),
        decreases values.len() - i,
    {
        assert(values@.take(i + 1) =~= values@.take(i as int).push(values@[i as int]));
        out.push(values[i]);
        i = i + 1;
    }
    assert(values@.take(i as int) =~= values@);
    out
}

/// `count` times the same value.
pub fn filled<T: Copy>(value: T, count: usize) -> (r: Vec<T>)
    ensures
        r@ == Seq::new(count as nat, |i: int| value),
{
    let mut out: Vec<T> = Vec::new();
    let mut i: usize = 0;
    while i < count
        invariant
            i <= count,
            out@ == Seq::new(i as nat, |j: int| value),
        decreases count - i,
    {
        out.push(value);
        i = i + 1;
        assert(out@ =~= Seq::new(i as nat, |j: int| value));
    }
    out
}

impl Clone for StripReservationGroup {
    fn clone(&self) -> (r: Self)
        ensures
            r@ == self@,
    {
        StripReservationGroup {
            group_id: self.group_id,
            chunk_id: self.chunk_id,
            writer_epoch: self.writer_epoch,
            lease_generation: self.lease_generation,
            lease_deadline_ms: self.lease_deadline_ms,
            placement_epoch: self.placement_epoch,
            strips: copy_strips(&self.strips),
            states: copy_values(&self.states),
            parity_segments: copy_segments(&self.parity_segments),
            preferred_survivors: copy_values(&self.preferred_survivors),
            data_num: self.data_num,
            code_num: self.code_num,
            planned_cursors: copy_values(&self.planned_cursors),
            planned_closed_sequences: copy_values(&self.planned_closed_sequences),
        }
    }
}

/// A chunk and its reservation group after a request.
#[derive(Debug)]
pub struct ReservationMutation {
    pub chunk: Chunk,
    pub group: Option<StripReservationGroup>,
}

/// Geometry of a reservation.
#[derive(Debug, Clone, Copy, PartialEq, Eq, Structural)]
pub struct ReserveGroupSpec {
    pub strip_size: u32,
    pub strip_count: u32,
    pub copy_count: u32,
    pub conversion_data_num: u32,
    pub conversion_code_num: u32,
}

/// What a reservation request is fenced by.
#[derive(Debug, Clone, Copy, PartialEq, Eq, Structural)]
pub struct ReservationFence {
    pub expected_modify_ts: u64,
    pub writer_epoch: u64,
    pub lease_generation: u64,
    pub lease_ms: u64,
}

/// Change of one reserved strip.
#[derive(Debug, Clone, Copy, PartialEq, Eq, Structural)]
pub struct ReservationUpdate {
    pub strip_sequence: u32,
    pub action: StripReservationAction,
    pub acknowledged_cursor: u64,
    pub closed_strip_sequence: Option<u32>,
}

/// Model of an optional group.
pub open spec fn group_option(group: Option<StripReservationGroup>) -> Option<GroupModel> {
    match group {
        Some(g) => Some(g@),
        None => None,
    }
}

// ---------------------------------------------------------------------------
// Reserving.
// ---------------------------------------------------------------------------

/// The fence and the geometry leave nothing at zero.
pub open spec fn reserve_spec_valid(fence: ReservationFence, spec: ReserveGroupSpec) -> bool {
    fence.writer_epoch != 0 && fence.lease_generation != 0 && fence.lease_ms != 0
        && spec.strip_size != 0 && spec.strip_count != 0 && spec.copy_count != 0
}

/// Refuses a reservation with a zero in its fence or geometry.
pub fn validate_reserve_spec(fence: ReservationFence, spec: ReserveGroupSpec) -> (r: Result<
    (),
    LifecycleError,
>)
    ensures
        if reserve_spec_valid(fence, spec) {
            r is Ok
        } else {
            r matches Err(e) && e@ == LifecycleErrorModel::InvalidRequest(
                "reservation fence and geometry must be nonzero"@,
            )
        },
{
    if fence.writer_epoch == 0 || fence.lease_generation == 0 || fence.lease_ms == 0
        || spec.strip_size == 0 || spec.strip_count == 0 || spec.copy_count == 0 {
        return Err(invalid_request("reservation fence and geometry must be nonzero"));
    }
    Ok(())
}

/// The stored group is what the request asked for.
pub open spec fn group_matches(
    group: GroupModel,
    chunk_id: ChunkId,
    group_id: ChunkId,
    fence: ReservationFence,
    spec: ReserveGroupSpec,
) -> bool {
    &&& group.chunk_id == Some(chunk_id)
    &&& group.group_id == Some(group_id)
    &&& group.writer_epoch == fence.writer_epoch
    &&& group.lease_generation == fence.lease_generation
    &&& group.strips.len() == spec.strip_count
    &&& group.states.len() == group.strips.len()
    &&& group.data_num == spec.conversion_data_num
    &&& group.code_num == spec.conversion_code_num
    &&& forall|i: int|
        0 <= i < group.strips.len() ==> reserved_as(#[trigger] group.strips[i], spec)
}

/// The strip has the size and the copies of the request.
pub open spec fn reserved_as(strip: StripModel, spec: ReserveGroupSpec) -> bool {
    strip.capacity == clip_u32(spec.strip_size * strip.unit_kb) && strip.mirror_segments().len()
        == spec.copy_count
}

/// Whether every strip has the size and the copies of the request.
pub fn are_reserved_as(strips: &[ChunkStrip], spec: ReserveGroupSpec) -> (r: bool)
    ensures
        r == (forall|i: int|
            0 <= i < strips@.len() ==> reserved_as(#[trigger] strip_models(strips@)[i], spec)),
{
    let ghost models = strip_models(strips@);
    let mut i: usize = 0;
    while i < strips.len()
        invariant
            i <= strips.len(),
            models == strip_models(strips@),
            forall|j: int| 0 <= j < i ==> reserved_as(#[trigger] models[j], spec),
        decreases strips.len() - i,
    {
        let strip = &strips[i];
        assert(models[i as int] == strip@);
        if strip.capacity != sat_mul_u32(spec.strip_size, strip.unit_kb)
            || strip.mirror_segments().len() != spec.copy_count as usize {
            assert(!reserved_as(models[i as int], spec));
            return false;
        }
        i = i + 1;
    }
    true
}

/// Refuses a stored group that differs from what the request asks for.
pub fn validate_existing_group(
    group: &StripReservationGroup,
    chunk_id: &ChunkId,
    group_id: &ChunkId,
    fence: ReservationFence,
    spec: ReserveGroupSpec,
) -> (r: Result<(), LifecycleError>)
    ensures
        if group_matches(group@, *chunk_id, *group_id, fence, spec) {
            r is Ok
        } else {
            r matches Err(e) && e@ == LifecycleErrorModel::StateConflict
        },
{
    if group.chunk_id != Some(*chunk_id) || group.group_id != Some(*group_id) || group.writer_epoch
        != fence.writer_epoch || group.lease_generation != fence.lease_generation
        || group.strips.len() != spec.strip_count as usize || group.states.len()
        != group.strips.len() || group.data_num != spec.conversion_data_num || group.code_num
        != spec.conversion_code_num {
        return Err(LifecycleError::StateConflict);
    }
    if !are_reserved_as(&group.strips, spec) {
        return Err(LifecycleError::StateConflict);
    }
    Ok(())
}

/// What a reservation has to do.
#[derive(Debug)]
pub enum ReservePlan {
    /// The group exists: answer with it.
    Existing,
    /// Allocate mirrors together with the parity of a later conversion.
    Conversion {
        unit_count: u32,
        start_sequence: u32,
        data_num: usize,
        code_num: usize,
        copy_count: usize,
    },
    /// Allocate mirrors.
    Mirrors(StripBatchSpec),
}

/// The answer to a request without per-chunk locks.
pub open spec fn unlocked_refusal() -> LifecycleErrorModel {
    LifecycleErrorModel::InvalidRequest("strip reservations require lifecycle locking"@)
}

/// What reserving a group takes, or why it is refused.
pub open spec fn reservation_plan(
    chunk: ChunkModel,
    existing: Option<GroupModel>,
    chunk_id: ChunkId,
    group_id: ChunkId,
    fence: ReservationFence,
    spec: ReserveGroupSpec,
) -> Result<ReservePlan, LifecycleErrorModel> {
    if chunk.state != ChunkState::Active {
        Err(inactive_refusal(chunk.state))
    } else if chunk.writer_epoch != fence.writer_epoch {
        Err(LifecycleErrorModel::StateConflict)
    } else if existing is Some {
        if group_matches(existing->0, chunk_id, group_id, fence, spec) {
            Ok(ReservePlan::Existing)
        } else {
            Err(LifecycleErrorModel::StateConflict)
        }
    } else if chunk.modify_ts != fence.expected_modify_ts {
        Err(LifecycleErrorModel::StateConflict)
    } else if spec.conversion_data_num == 0 && spec.conversion_code_num == 0 {
        Ok(
            ReservePlan::Mirrors(
                StripBatchSpec {
                    strip_type: StripAllocType::Mirror { copy_count: spec.copy_count as usize },
                    unit_count: spec.strip_size,
                    start_sequence: chunk.next_strip_sequence,
                    strip_count: spec.strip_count,
                },
            ),
        )
    } else if spec.strip_count != spec.conversion_data_num || spec.conversion_code_num == 0 {
        Err(
            LifecycleErrorModel::InvalidRequest(
                "conversion reservation geometry must match its data width"@,
            ),
        )
    } else {
        Ok(
            ReservePlan::Conversion {
                unit_count: spec.strip_size,
                start_sequence: chunk.next_strip_sequence,
                data_num: spec.conversion_data_num as usize,
                code_num: spec.conversion_code_num as usize,
                copy_count: spec.copy_count as usize,
            },
        )
    }
}

/// The group of freshly allocated strips.
pub open spec fn new_group(
    chunk: ChunkModel,
    chunk_id: ChunkId,
    group_id: ChunkId,
    fence: ReservationFence,
    spec: ReserveGroupSpec,
    strips: Seq<StripModel>,
    parity_segments: Seq<Segment>,
    preferred_survivors: Seq<u32>,
    now_ms: u64,
) -> GroupModel {
    GroupModel {
        group_id: Some(group_id),
        chunk_id: Some(chunk_id),
        writer_epoch: fence.writer_epoch,
        lease_generation: fence.lease_generation,
        lease_deadline_ms: lease_deadline(now_ms, fence.writer_epoch, fence.lease_ms),
        placement_epoch: now_ms,
        strips: placed_from(strips, chunk.capacity),
        states: Seq::new(
            strips.len(),
            |i: int| ReservationCode::Known(StripReservationState::Reserved),
        ),
        parity_segments,
        preferred_survivors,
        data_num: spec.conversion_data_num,
        code_num: spec.conversion_code_num,
        planned_cursors: Seq::new(strips.len(), |i: int| 0u64),
        planned_closed_sequences: Seq::new(strips.len(), |i: int| u32::MAX),
    }
}

/// The chunk once a group of strips is reserved for it.
pub open spec fn reserved_chunk(
    chunk: ChunkModel,
    fence: ReservationFence,
    spec: ReserveGroupSpec,
    now_ms: u64,
) -> ChunkModel {
    ChunkModel {
        next_strip_sequence: (chunk.next_strip_sequence + spec.strip_count) as u32,
        modify_ts: clip_u64(chunk.modify_ts + 1),
        writer_lease_deadline_ms: lease_deadline(now_ms, fence.writer_epoch, fence.lease_ms),
        ..chunk
    }
}

/// What follows a reservation whose write failed.
#[derive(Debug)]
pub enum FailedPersist {
    /// The write had happened: answer with the stored chunk and group.
    Adopt(StripReservationGroup),
    /// The record is absent: give the segments back, then return the error.
    RollBack,
    /// The outcome stays open: keep the segments, and return the error.
    Retain,
}

// ---------------------------------------------------------------------------
// Changing reserved strips.
// ---------------------------------------------------------------------------

/// What changing a reserved strip takes.
#[derive(Debug)]
pub enum MutationStep {
    /// Answer with the chunk and this group.
    Answer(Option<StripReservationGroup>),
    /// Store the group, and answer with the chunk and the group.
    PutGroup(StripReservationGroup),
    /// Store chunk and group together, commit the segments of the strip in the
    /// background, and answer with both.
    Confirm { chunk: Chunk, group: StripReservationGroup, strip: ChunkStrip },
    /// Store the group first where it changed, free the strip, and answer with
    /// the chunk and the group.
    Cancel { group: StripReservationGroup, changed: bool, rollback: ChunkStrip },
    /// Commit the parity segments, then store the chunk and delete the group.
    Publish { chunk: Chunk, commit: Vec<Segment> },
}

/// Model of a step.
pub enum MutationModel {
    Answer(Option<GroupModel>),
    PutGroup(GroupModel),
    Confirm { chunk: ChunkModel, group: GroupModel, strip: StripModel },
    Cancel { group: GroupModel, changed: bool, rollback: StripModel },
    Publish { chunk: ChunkModel, commit: Seq<Segment> },
}

impl View for MutationStep {
    type V = MutationModel;

    open spec fn view(&self) -> MutationModel {
        match self {
            MutationStep::Answer(group) => MutationModel::Answer(group_option(*group)),
            MutationStep::PutGroup(group) => MutationModel::PutGroup(group@),
            MutationStep::Confirm { chunk, group, strip } => MutationModel::Confirm {
                chunk: chunk@,
                group: group@,
                strip: strip@,
            },
            MutationStep::Cancel { group, changed, rollback } => MutationModel::Cancel {
                group: group@,
                changed: *changed,
                rollback: rollback@,
            },
            MutationStep::Publish { chunk, commit } => MutationModel::Publish {
                chunk: chunk@,
                commit: commit@,
            },
        }
    }
}

/// The group with one state changed.
pub open spec fn with_state(group: GroupModel, index: int, state: StripReservationState) -> GroupModel {
    GroupModel { states: group.states.update(index, ReservationCode::Known(state)), ..group }
}

/// The chunk with a consumed strip attached at its end, or why that is refused.
pub open spec fn confirmed(chunk: ChunkModel, strip: StripModel, update: ReservationUpdate) -> Result<
    ChunkModel,
    LifecycleErrorModel,
> {
    let capacity = clip_u32(chunk.capacity + strip.capacity);
    if strip.chunk_offset != chunk.capacity {
        Err(LifecycleErrorModel::StateConflict)
    } else if update.acknowledged_cursor <= chunk.acknowledged_cursor || update.acknowledged_cursor
        > capacity * 1024 {
        Err(
            LifecycleErrorModel::InvalidRequest(
                "reservation confirmation cursor is outside the new attached capacity"@,
            ),
        )
    } else {
        Ok(
            ChunkModel {
                strips: chunk.strips.push(strip),
                capacity,
                acknowledged_cursor: update.acknowledged_cursor,
                closed_strip_sequence: update.closed_strip_sequence,
                modify_ts: clip_u64(chunk.modify_ts + 1),
                ..chunk
            },
        )
    }
}

/// The attached strip is laid out as it was reserved.
pub open spec fn same_layout(current: StripModel, reserved: StripModel) -> bool {
    &&& current.chunk_offset == reserved.chunk_offset
    &&& current.strip_sequence == reserved.strip_sequence
    &&& current.unit_kb == reserved.unit_kb
    &&& current.capacity == reserved.capacity
    &&& current.strip_type == reserved.strip_type
    &&& current.strip == reserved.strip
    &&& current.unavailable_segments == reserved.unavailable_segments
}

/// All strips of the group are confirmed and its parity is there.
pub open spec fn group_complete(group: GroupModel) -> bool {
    &&& group.data_num != 0
    &&& group.code_num != 0
    &&& group.strips.len() == group.data_num
    &&& group.parity_segments.len() == group.code_num
    &&& forall|i: int|
        0 <= i < group.states.len() ==> #[trigger] group.states[i] == ReservationCode::Known(
            StripReservationState::Confirmed,
        )
}

/// The group's strips are attached to the chunk from `start` on as reserved.
pub open spec fn attached_at(chunk: ChunkModel, group: GroupModel, start: int) -> bool {
    start + group.strips.len() <= chunk.strips.len() && forall|i: int|
        0 <= i < group.strips.len() ==> same_layout(
            #[trigger] chunk.strips[start + i],
            group.strips[i],
        )
}

/// The writer is through with the group's strips.
pub open spec fn group_written(chunk: ChunkModel, group: GroupModel) -> bool {
    &&& chunk.acknowledged_cursor >= group.strips.last().end_byte()
    &&& chunk.closed_strip_sequence matches Some(closed) && closed
        >= group.strips.last().strip_sequence
}

/// The erasure-coded strip that replaces the mirrors of a group.
pub open spec fn converted_strip(group: GroupModel, selected: Seq<Segment>, now_ms: u64) -> StripModel {
    let first = group.strips[0];
    StripModel {
        chunk_offset: first.chunk_offset,
        strip_sequence: first.strip_sequence,
        unit_kb: first.unit_kb,
        capacity: total_capacity(group.strips) as u32,
        create_ts_ms: now_ms,
        sealed_ts_ms: 0,
        sealed_length: 0,
        strip_type: StripType::Ec,
        strip: Some(
            LayoutModel::Ec {
                data_num: group.data_num,
                code_num: group.code_num,
                ec_state: EcState::Parity,
                segments: selected + group.parity_segments,
            },
        ),
        usage_bitmap: Seq::empty(),
        unavailable_segments: Seq::empty(),
        placement_repair_required: false,
        placement_assessment: None,
        placement_priority: FailureDomainPriority::RackFirst,
    }
}

/// The copies of all strips, in order.
pub open spec fn mirror_copies(strips: Seq<StripModel>) -> Seq<Segment>
    decreases strips.len(),
{
    if strips.len() == 0 {
        Seq::empty()
    } else {
        mirror_copies(strips.drop_last()) + strips.last().mirror_segments()
    }
}

/// The chunk with a group published as one erasure-coded strip.
pub open spec fn published(
    chunk: ChunkModel,
    group: GroupModel,
    start: int,
    selected: Seq<Segment>,
    now_ms: u64,
    layout_validity_ms: u64,
) -> ChunkModel {
    let strips = chunk.strips.take(start).push(converted_strip(group, selected, now_ms))
        + chunk.strips.skip(start + group.strips.len());
    ChunkModel {
        strips,
        capacity: total_capacity(strips) as u32,
        modify_ts: clip_u64(chunk.modify_ts + 1),
        last_strip_replacement: group.group_id,
        cleanup_intents: with_retired(
            chunk.cleanup_intents,
            group.group_id,
            unreferenced(mirror_copies(group.strips), selected),
            clip_u64(now_ms + layout_validity_ms),
        ),
        ..chunk
    }
}

/// What publishing a group takes; none where the group is not ready for it.
pub open spec fn publication(
    snap: &TopologySnapshot,
    owners: Map<(u64, u64), u64>,
    chunk: ChunkModel,
    group: GroupModel,
    allow_unsafe: bool,
    now_ms: u64,
    layout_validity_ms: u64,
) -> Option<ChunkModel> {
    if !group_complete(group) {
        None
    } else {
        match strip_with_sequence(chunk.strips, group.strips[0].strip_sequence, 0) {
            None => None,
            Some(start) => if !attached_at(chunk, group, start) || !group_written(chunk, group) {
                None
            } else {
                match conversion_survivors(
                    snap,
                    owners,
                    group.strips,
                    group.parity_segments,
                    node_limit(group.data_num, group.code_num, allow_unsafe) as nat,
                ) {
                    None => None,
                    Some(selected) => Some(
                        published(chunk, group, start, selected, now_ms, layout_validity_ms),
                    ),
                }
            },
        }
    }
}

/// What the action does to the strip at `index` in its state.
pub open spec fn action_step(
    snap: &TopologySnapshot,
    owners: Map<(u64, u64), u64>,
    chunk: ChunkModel,
    group: GroupModel,
    index: int,
    state: StripReservationState,
    fence: ReservationFence,
    update: ReservationUpdate,
    allow_unsafe: bool,
    layout_validity_ms: u64,
    now_ms: u64,
) -> Result<MutationModel, LifecycleErrorModel> {
    match update.action {
        StripReservationAction::Consume => match state {
            StripReservationState::Reserved => Ok(
                MutationModel::PutGroup(
                    with_state(group, index, StripReservationState::Consumed),
                ),
            ),
            StripReservationState::Consumed => Ok(MutationModel::Answer(Some(group))),
            _ => Err(LifecycleErrorModel::StateConflict),
        },
        StripReservationAction::Confirm => match state {
            StripReservationState::Consumed => if chunk.modify_ts != fence.expected_modify_ts {
                Err(LifecycleErrorModel::StateConflict)
            } else {
                match confirmed(chunk, group.strips[index], update) {
                    Err(error) => Err(error),
                    Ok(next) => Ok(
                        MutationModel::Confirm {
                            chunk: next,
                            group: with_state(group, index, StripReservationState::Confirmed),
                            strip: group.strips[index],
                        },
                    ),
                }
            },
            StripReservationState::Confirmed => if strip_with_sequence(
                chunk.strips,
                update.strip_sequence,
                0,
            ) is Some {
                Ok(MutationModel::Answer(Some(group)))
            } else {
                Err(LifecycleErrorModel::StateConflict)
            },
            _ => Err(LifecycleErrorModel::StateConflict),
        },
        StripReservationAction::Cancel => match state {
            StripReservationState::Reserved => Ok(
                MutationModel::Cancel {
                    group: with_state(group, index, StripReservationState::Cancelled),
                    changed: true,
                    rollback: group.strips[index],
                },
            ),
            StripReservationState::Cancelled => Ok(
                MutationModel::Cancel { group, changed: false, rollback: group.strips[index] },
            ),
            _ => Err(LifecycleErrorModel::StateConflict),
        },
        StripReservationAction::Renew => match state {
            StripReservationState::Reserved | StripReservationState::Consumed => Ok(
                MutationModel::PutGroup(
                    GroupModel {
                        lease_generation: clip_u64(group.lease_generation + 1),
                        lease_deadline_ms: lease_deadline(
                            now_ms,
                            fence.writer_epoch,
                            fence.lease_ms,
                        ),
                        ..group
                    },
                ),
            ),
            _ => Err(LifecycleErrorModel::StateConflict),
        },
        StripReservationAction::Publish => if chunk.modify_ts != fence.expected_modify_ts {
            Err(LifecycleErrorModel::StateConflict)
        } else {
            match publication(
                snap,
                owners,
                chunk,
                group,
                allow_unsafe,
                now_ms,
                layout_validity_ms,
            ) {
                None => Err(LifecycleErrorModel::StateConflict),
                Some(next) => Ok(
                    MutationModel::Publish { chunk: next, commit: group.parity_segments },
                ),
            }
        },
    }
}

/// What changing a reserved strip takes, or why it is refused.
pub open spec fn mutation(
    snap: &TopologySnapshot,
    owners: Map<(u64, u64), u64>,
    chunk: ChunkModel,
    group_id: ChunkId,
    stored: Option<GroupModel>,
    fence: ReservationFence,
    update: ReservationUpdate,
    allow_unsafe: bool,
    layout_validity_ms: u64,
    now_ms: u64,
) -> Result<MutationModel, LifecycleErrorModel> {
    if chunk.state != ChunkState::Active {
        Err(inactive_refusal(chunk.state))
    } else if chunk.writer_epoch != fence.writer_epoch {
        Err(LifecycleErrorModel::StateConflict)
    } else if update.action == StripReservationAction::Publish && chunk.last_strip_replacement
        == Some(group_id) {
        Ok(MutationModel::Answer(None))
    } else {
        match stored {
            None => Err(LifecycleErrorModel::StateConflict),
            Some(group) => if group.writer_epoch != fence.writer_epoch || group.lease_generation
                != fence.lease_generation {
                Err(LifecycleErrorModel::StateConflict)
            } else if group.states.len() != group.strips.len() {
                Err(
                    LifecycleErrorModel::InvalidRequest(
                        "reservation state and strip counts differ"@,
                    ),
                )
            } else {
                match strip_with_sequence(group.strips, update.strip_sequence, 0) {
                    None => Err(
                        LifecycleErrorModel::StripIndexOutOfRange {
                            index: update.strip_sequence,
                            len: group.strips.len() as usize,
                        },
                    ),
                    Some(index) => match group.states[index] {
                        ReservationCode::Unknown(_) => Err(
                            LifecycleErrorModel::InvalidRequest("invalid reservation state"@),
                        ),
                        ReservationCode::Known(state) => if now_ms > group.lease_deadline_ms && state
                            == StripReservationState::Reserved && update.action
                            != StripReservationAction::Cancel {
                            Err(LifecycleErrorModel::StateConflict)
                        } else {
                            action_step(
                                snap,
                                owners,
                                chunk,
                                group,
                                index,
                                state,
                                fence,
                                update,
                                allow_unsafe,
                                layout_validity_ms,
                                now_ms,
                            )
                        },
                    },
                }
            },
        }
    }
}

/// Model of a mutation result.
pub open spec fn mutation_result(r: Result<MutationStep, LifecycleError>) -> Result<
    MutationModel,
    LifecycleErrorModel,
> {
    match r {
        Ok(step) => Ok(step@),
        Err(error) => Err(error@),
    }
}

/// Refuses a group whose states and strips differ in number.
pub fn validate_group_shape(group: &StripReservationGroup) -> (r: Result<(), LifecycleError>)
    ensures
        if group@.states.len() == group@.strips.len() {
            r is Ok
        } else {
            r matches Err(e) && e@ == LifecycleErrorModel::InvalidRequest(
                "reservation state and strip counts differ"@,
            )
        },
{
    if group.states.len() != group.strips.len() {
        return Err(invalid_request("reservation state and strip counts differ"));
    }
    Ok(())
}

fn layouts_equal(a: &Option<Strip>, b: &Option<Strip>) -> (r: bool)
    ensures
        r == (layout_model(*a) == layout_model(*b)),
{
    match (a, b) {
        (Some(x), Some(y)) => x.same(y),
        (None, None) => true,
        _ => false,
    }
}

fn same_reserved_layout(current: &ChunkStrip, reserved: &ChunkStrip) -> (r: bool)
    ensures
        r == same_layout(current@, reserved@),
{
    current.chunk_offset == reserved.chunk_offset && current.strip_sequence
        == reserved.strip_sequence && current.unit_kb == reserved.unit_kb && current.capacity
        == reserved.capacity && current.strip_type == reserved.strip_type && layouts_equal(
        &current.strip,
        &reserved.strip,
    ) && crate::types::segments_equal(&current.unavailable_segments, &reserved.unavailable_segments)
}

fn all_confirmed(states: &Vec<ReservationCode>) -> (r: bool)
    ensures
        r == (forall|i: int|
            0 <= i < states@.len() ==> #[trigger] states@[i] == ReservationCode::Known(
                StripReservationState::Confirmed,
            )),
{
    let mut i: usize = 0;
    while i < states.len()
        invariant
            i <= states.len(),
            forall|j: int|
                0 <= j < i ==> #[trigger] states@[j] == ReservationCode::Known(
                    StripReservationState::Confirmed,
                ),
        decreases states.len() - i,
    {
        if states[i] != ReservationCode::Known(StripReservationState::Confirmed) {
            return false;
        }
        i = i + 1;
    }
    true
}

fn copies_of(strips: &[ChunkStrip]) -> (r: Vec<Segment>)
    ensures
        r@ == mirror_copies(strip_models(strips@)),
{
    let ghost models = strip_models(strips@);
    let mut out: Vec<Segment> = Vec::new();
    let mut i: usize = 0;
    while i < strips.len()
        invariant
            i <= strips.len(),
            models == strip_models(strips@),
            out@ == mirror_copies(models.take(i as int)),
        decreases strips.len() - i,
    {
        proof {
            assert(models.take(i + 1).drop_last() =~= models.take(i as int));
            assert(models.take(i + 1).last() == strips@[i as int]@);
        }
        let mut copies = strips[i].mirror_segments();
        out.append(&mut copies);
        i = i + 1;
    }
    assert(models.take(i as int) =~= models);
    out
}

proof fn lemma_equal_capacity(a: Seq<StripModel>, b: Seq<StripModel>)
    requires
        a.len() == b.len(),
        forall|i: int| 0 <= i < a.len() ==> (#[trigger] a[i]).capacity == b[i].capacity,
    ensures
        total_capacity(a) == total_capacity(b),
    decreases a.len(),
{
    if a.len() > 0 {
        assert forall|i: int| 0 <= i < a.len() - 1 implies (#[trigger] a.drop_last()[i]).capacity
            == b.drop_last()[i].capacity by {
            assert(a[i].capacity == b[i].capacity);
        }
        lemma_equal_capacity(a.drop_last(), b.drop_last());
        assert(a[a.len() - 1].capacity == b[a.len() - 1].capacity);
    }
}

proof fn lemma_published_capacity(
    strips: Seq<StripModel>,
    start: int,
    group: Seq<StripModel>,
    strip: StripModel,
)
    requires
        0 <= start,
        start + group.len() <= strips.len(),
        forall|i: int|
            0 <= i < group.len() ==> (#[trigger] strips[start + i]).capacity == group[i].capacity,
        total_capacity(strips) <= u32::MAX,
        strip.capacity == total_capacity(group) as u32,
    ensures
        0 <= total_capacity(group) <= u32::MAX,
        total_capacity(strips.take(start).push(strip) + strips.skip(start + group.len()))
            == total_capacity(strips),
{
    let end = start + group.len();
    let a = strips.take(start);
    let b = strips.subrange(start, end);
    let c = strips.skip(end);
    assert(strips =~= a + b + c);
    lemma_capacity_concat(a, b);
    lemma_capacity_concat(a + b, c);
    lemma_capacity_nonnegative(a);
    lemma_capacity_nonnegative(c);
    lemma_capacity_nonnegative(group);
    assert forall|i: int| 0 <= i < b.len() implies (#[trigger] b[i]).capacity == group[i].capacity by {
        assert(b[i] == strips[start + i]);
    }
    lemma_equal_capacity(b, group);
    assert(a.push(strip).drop_last() =~= a);
    lemma_capacity_concat(a.push(strip), c);
}

/// What a publication comes to.
struct PublishPlan {
    chunk: Chunk,
    commit: Vec<Segment>,
}

impl LifecycleHandler {
    fn check_locks(&self) -> (r: Result<(), LifecycleError>)
        ensures
            if self.locking {
                r is Ok
            } else {
                r matches Err(e) && e@ == unlocked_refusal()
            },
    {
        if !self.locking {
            return Err(invalid_request("strip reservations require lifecycle locking"));
        }
        Ok(())
    }

    /// Decide a reservation: answer with the existing group, or name what to
    /// allocate.
    pub fn plan_reservation(
        &self,
        chunk: &Chunk,
        existing: Option<&StripReservationGroup>,
        chunk_id: &ChunkId,
        group_id: &ChunkId,
        bucket: u16,
        fence: ReservationFence,
        spec: ReserveGroupSpec,
    ) -> (r: Result<ReservePlan, LifecycleError>)
        ensures
            (match r {
                Ok(plan) => Ok(plan),
                Err(error) => Err(error@),
            }) == (if range_refusal(self, bucket) is Some {
                Err(range_refusal(self, bucket)->0)
            } else if !reserve_spec_valid(fence, spec) {
                Err(
                    LifecycleErrorModel::InvalidRequest(
                        "reservation fence and geometry must be nonzero"@,
                    ),
                )
            } else if !self.locking {
                Err(unlocked_refusal())
            } else {
                reservation_plan(
                    chunk@,
                    match existing {
                        Some(group) => Some(group@),
                        None => None,
                    },
                    *chunk_id,
                    *group_id,
                    fence,
                    spec,
                )
            }),
    {
        match self.check_range(bucket) {
            Ok(()) => {},
            Err(e) => {
                return Err(e);
            },
        }
        match validate_reserve_spec(fence, spec) {
            Ok(()) => {},
            Err(e) => {
                return Err(e);
            },
        }
        match self.check_locks() {
            Ok(()) => {},
            Err(e) => {
                return Err(e);
            },
        }
        match chunk.state.check_can_append() {
            Ok(()) => {},
            Err(e) => {
                return Err(LifecycleError::InvalidStateTransition(e));
            },
        }
        if chunk.writer_epoch != fence.writer_epoch {
            return Err(LifecycleError::StateConflict);
        }
        match existing {
            Some(group) => {
                return match validate_existing_group(group, chunk_id, group_id, fence, spec) {
                    Ok(()) => Ok(ReservePlan::Existing),
                    Err(e) => Err(e),
                };
            },
            None => {},
        }
        if chunk.modify_ts != fence.expected_modify_ts {
            return Err(LifecycleError::StateConflict);
        }
        if spec.conversion_data_num == 0 && spec.conversion_code_num == 0 {
            return Ok(
                ReservePlan::Mirrors(
                    StripBatchSpec {
                        strip_type: StripAllocType::Mirror { copy_count: spec.copy_count as usize },
                        unit_count: spec.strip_size,
                        start_sequence: chunk.next_strip_sequence,
                        strip_count: spec.strip_count,
                    },
                ),
            );
        }
        if spec.strip_count != spec.conversion_data_num || spec.conversion_code_num == 0 {
            return Err(
                invalid_request("conversion reservation geometry must match its data width"),
            );
        }
        Ok(
            ReservePlan::Conversion {
                unit_count: spec.strip_size,
                start_sequence: chunk.next_strip_sequence,
                data_num: spec.conversion_data_num as usize,
                code_num: spec.conversion_code_num as usize,
                copy_count: spec.copy_count as usize,
            },
        )
    }

    /// The chunk and the group to store once the strips of a reservation are
    /// allocated.
    pub fn reserve_strip_group(
        chunk: &Chunk,
        chunk_id: &ChunkId,
        group_id: &ChunkId,
        fence: ReservationFence,
        spec: ReserveGroupSpec,
        strips: Vec<ChunkStrip>,
        parity_segments: Vec<Segment>,
        preferred_survivors: Vec<u32>,
        now_ms: u64,
    ) -> (r: Result<(Chunk, StripReservationGroup), LifecycleError>)
        requires
            strips@.len() == spec.strip_count,
            forall|i: int|
                0 <= i < strips@.len() ==> reserved_as(#[trigger] strip_models(strips@)[i], spec),
            total_capacity(strip_models(strips@)) <= u32::MAX,
        ensures
            match r {
                Ok((next, group)) => chunk@.next_strip_sequence + spec.strip_count <= u32::MAX
                    && next@ == reserved_chunk(chunk@, fence, spec, now_ms) && group@ == new_group(
                    chunk@,
                    *chunk_id,
                    *group_id,
                    fence,
                    spec,
                    strip_models(strips@),
                    parity_segments@,
                    preferred_survivors@,
                    now_ms,
                ),
                Err(e) => chunk@.next_strip_sequence + spec.strip_count > u32::MAX && e@
                    == LifecycleErrorModel::InvalidRequest("chunk strip sequence space exhausted"@),
            },
    {
        let mut strips = strips;
        let count: usize = strips.len();
        assign_strip_offsets(&mut strips, chunk.capacity);
        let deadline: u64 = writer_lease_deadline(now_ms, fence.writer_epoch, fence.lease_ms);
        let group = StripReservationGroup {
            group_id: Some(*group_id),
            chunk_id: Some(*chunk_id),
            writer_epoch: fence.writer_epoch,
            lease_generation: fence.lease_generation,
            lease_deadline_ms: deadline,
            placement_epoch: now_ms,
            strips,
            states: filled(ReservationCode::Known(StripReservationState::Reserved), count),
            parity_segments,
            preferred_survivors,
            data_num: spec.conversion_data_num,
            code_num: spec.conversion_code_num,
            planned_cursors: filled(0u64, count),
            planned_closed_sequences: filled(u32::MAX, count),
        };
        if spec.strip_count > u32::MAX - chunk.next_strip_sequence {
            return Err(invalid_request("chunk strip sequence space exhausted"));
        }
        let mut next = chunk.clone();
        next.next_strip_sequence = chunk.next_strip_sequence + spec.strip_count;
        next.modify_ts = sat_add_u64(next.modify_ts, 1);
        next.writer_lease_deadline_ms = deadline;
        Ok((next, group))
    }

    /// Decide what follows a reservation whose write failed, from a read of the
    /// group behind it.
    pub fn after_failed_persist(
        found: Result<Option<StripReservationGroup>, StoreError>,
        chunk_id: &ChunkId,
        group_id: &ChunkId,
        fence: ReservationFence,
        spec: ReserveGroupSpec,
    ) -> (r: Result<FailedPersist, LifecycleError>)
        ensures
            match found {
                Ok(Some(group)) => if group_matches(group@, *chunk_id, *group_id, fence, spec) {
                    r matches Ok(FailedPersist::Adopt(adopted)) && adopted@ == group@
                } else {
                    r matches Err(e) && e@ == LifecycleErrorModel::StateConflict
                },
                Ok(None) => r matches Ok(FailedPersist::RollBack),
                Err(_) => r matches Ok(FailedPersist::Retain),
            },
    {
        match found {
            Ok(Some(group)) => match validate_existing_group(
                &group,
                chunk_id,
                group_id,
                fence,
                spec,
            ) {
                Ok(()) => Ok(FailedPersist::Adopt(group)),
                Err(e) => Err(e),
            },
            Ok(None) => Ok(FailedPersist::RollBack),
            Err(_) => Ok(FailedPersist::Retain),
        }
    }

    fn confirm_reserved_strip(chunk: &Chunk, strip: &ChunkStrip, update: ReservationUpdate) -> (r:
        Result<Chunk, LifecycleError>)
        ensures
            (match r {
                Ok(next) => Ok(next@),
                Err(error) => Err(error@),
            }) == confirmed(chunk@, strip@, update),
    {
        if strip.chunk_offset != chunk.capacity {
            return Err(LifecycleError::StateConflict);
        }
        let capacity: u32 = sat_add_u32(chunk.capacity, strip.capacity);
        let capacity_bytes: u64 = (capacity as u64) * 1024;
        if update.acknowledged_cursor <= chunk.acknowledged_cursor || update.acknowledged_cursor
            > capacity_bytes {
            return Err(
                invalid_request(
                    "reservation confirmation cursor is outside the new attached capacity",
                ),
            );
        }
        let mut next = chunk.clone();
        let ghost before = next.strips@;
        next.strips.push(strip.clone());
        assert(strip_models(next.strips@) =~= strip_models(before).push(strip@));
        next.capacity = capacity;
        next.acknowledged_cursor = update.acknowledged_cursor;
        next.closed_strip_sequence = update.closed_strip_sequence;
        next.modify_ts = sat_add_u64(next.modify_ts, 1);
        Ok(next)
    }

    fn publish_conversion_group(
        &self,
        snap: &TopologySnapshot,
        pool: &DiskdbClientPool,
        chunk: &Chunk,
        group: &StripReservationGroup,
        now_ms: u64,
    ) -> (r: Result<PublishPlan, LifecycleError>)
        requires
            total_capacity(chunk@.strips) <= u32::MAX,
        ensures
            match r {
                Ok(plan) => publication(
                    snap,
                    pool.owners(),
                    chunk@,
                    group@,
                    self.allow_unsafe_ec,
                    now_ms,
                    self.layout_validity_ms,
                ) == Some(plan.chunk@) && plan.commit@ == group@.parity_segments,
                Err(e) => e@ == LifecycleErrorModel::StateConflict && publication(
                    snap,
                    pool.owners(),
                    chunk@,
                    group@,
                    self.allow_unsafe_ec,
                    now_ms,
                    self.layout_validity_ms,
                ) is None,
            },
    {
        let n: usize = group.strips.len();
        if group.data_num == 0 || group.code_num == 0 || n != group.data_num as usize
            || group.parity_segments.len() != group.code_num as usize || !all_confirmed(
            &group.states,
        ) {
            return Err(LifecycleError::StateConflict);
        }
        assert(group_complete(group@));
        assert(group@.strips[0] == group.strips@[0]@);
        let start: usize = match find_sequence(&chunk.strips, group.strips[0].strip_sequence) {
            Some(start) => start,
            None => {
                return Err(LifecycleError::StateConflict);
            },
        };
        if n > chunk.strips.len() - start {
            return Err(LifecycleError::StateConflict);
        }
        let end: usize = start + n;
        let mut i: usize = 0;
        while i < n
            invariant
                i <= n,
                n == group.strips@.len(),
                n > 0,
                group_complete(group@),
                strip_with_sequence(chunk@.strips, group@.strips[0].strip_sequence, 0) == Some(
                    start as int,
                ),
                end == start + n,
                end <= chunk.strips@.len(),
                forall|j: int|
                    0 <= j < i ==> same_layout(
                        #[trigger] chunk@.strips[start + j],
                        group@.strips[j],
                    ),
            decreases n - i,
        {
            assert(chunk@.strips[start + i] == chunk.strips@[start + i]@);
            assert(group@.strips[i as int] == group.strips@[i as int]@);
            if !same_reserved_layout(&chunk.strips[start + i], &group.strips[i]) {
                assert(!same_layout(chunk@.strips[start + i], group@.strips[i as int]));
                return Err(LifecycleError::StateConflict);
            }
            i = i + 1;
        }
        assert(attached_at(chunk@, group@, start as int));
        let last = &group.strips[n - 1];
        assert(group@.strips.last() == last@);
        let range_end: u64 = (sat_add_u32(last.chunk_offset, last.capacity) as u64) * 1024;
        let closed = match chunk.closed_strip_sequence {
            Some(closed) => closed >= last.strip_sequence,
            None => false,
        };
        if chunk.acknowledged_cursor < range_end || !closed {
            return Err(LifecycleError::StateConflict);
        }
        let selected = match select_conversion_survivors(
            snap,
            pool,
            &group.strips,
            &group.parity_segments,
            group.data_num,
            group.code_num,
            self.allow_unsafe_ec,
        ) {
            Ok(selected) => selected,
            Err(e) => {
                return Err(e);
            },
        };
        let mut segments = copy_segments(&selected);
        let mut parity = copy_segments(&group.parity_segments);
        segments.append(&mut parity);
        proof {
            lemma_published_capacity(
                chunk@.strips,
                start as int,
                group@.strips,
                converted_strip(group@, selected@, now_ms),
            );
        }
        let first = &group.strips[0];
        let replacement = ChunkStrip {
            chunk_offset: first.chunk_offset,
            strip_sequence: first.strip_sequence,
            unit_kb: first.unit_kb,
            capacity: sum_capacity(&group.strips),
            create_ts_ms: now_ms,
            sealed_ts_ms: 0,
            sealed_length: 0,
            strip_type: StripType::Ec,
            strip: Some(
                Strip::EcStrip(
                    EcStrip {
                        data_num: group.data_num,
                        code_num: group.code_num,
                        ec_state: EcState::Parity,
                        segments,
                    },
                ),
            ),
            usage_bitmap: Vec::new(),
            unavailable_segments: Vec::new(),
            placement_repair_required: false,
            placement_assessment: None,
            placement_priority: FailureDomainPriority::RackFirst,
        };
        proof {
            let want = converted_strip(group@, selected@, now_ms);
            assert(replacement@.usage_bitmap =~= want.usage_bitmap);
            assert(replacement@.unavailable_segments =~= want.unavailable_segments);
            assert(replacement@ == want);
        }
        let copies = copies_of(&group.strips);
        let retired = drop_referenced(&copies, &selected);
        let ghost replacement_model = replacement@;
        let mut strips = copy_strip_range(&chunk.strips, 0, start);
        let ghost head = strips@;
        strips.push(replacement);
        proof {
            assert(strip_models(strips@) =~= strip_models(head).push(replacement_model));
            assert(chunk@.strips.subrange(0, start as int) =~= chunk@.strips.take(start as int));
            assert(chunk@.strips.subrange(end as int, chunk@.strips.len() as int)
                =~= chunk@.strips.skip(end as int));
        }
        let tail = copy_strip_range(&chunk.strips, end, chunk.strips.len());
        append_strips(&mut strips, &tail);
        let mut next = chunk.clone();
        next.capacity = sum_capacity(&strips);
        next.strips = strips;
        next.modify_ts = sat_add_u64(next.modify_ts, 1);
        next.last_strip_replacement = group.group_id;
        if retired.len() > 0 {
            let ghost intents_before = next.cleanup_intents@;
            let intent = StripCleanupIntent {
                operation_id: group.group_id,
                retired_segments: retired,
                not_before_ms: sat_add_u64(now_ms, self.layout_validity_ms),
            };
            let ghost intent_model = intent@;
            next.cleanup_intents.push(intent);
            assert(intent_models(next.cleanup_intents@) =~= intent_models(intents_before).push(
                intent_model,
            ));
        }
        Ok(PublishPlan { chunk: next, commit: copy_segments(&group.parity_segments) })
    }

    /// Decide a change of one reserved strip.
    pub fn mutate_strip_reservation(
        &self,
        snap: &TopologySnapshot,
        pool: &DiskdbClientPool,
        chunk: &Chunk,
        group_id: &ChunkId,
        bucket: u16,
        stored: Option<StripReservationGroup>,
        fence: ReservationFence,
        update: ReservationUpdate,
        now_ms: u64,
    ) -> (r: Result<MutationStep, LifecycleError>)
        requires
            update.action == StripReservationAction::Publish ==> total_capacity(chunk@.strips)
                <= u32::MAX,
        ensures
            mutation_result(r) == (if range_refusal(self, bucket) is Some {
                Err(range_refusal(self, bucket)->0)
            } else if !self.locking {
                Err(unlocked_refusal())
            } else {
                mutation(
                    snap,
                    pool.owners(),
                    chunk@,
                    *group_id,
                    group_option(stored),
                    fence,
                    update,
                    self.allow_unsafe_ec,
                    self.layout_validity_ms,
                    now_ms,
                )
            }),
    {
        match self.check_range(bucket) {
            Ok(()) => {},
            Err(e) => {
                return Err(e);
            },
        }
        match self.check_locks() {
            Ok(()) => {},
            Err(e) => {
                return Err(e);
            },
        }
        match chunk.state.check_can_append() {
            Ok(()) => {},
            Err(e) => {
                return Err(LifecycleError::InvalidStateTransition(e));
            },
        }
        if chunk.writer_epoch != fence.writer_epoch {
            return Err(LifecycleError::StateConflict);
        }
        if update.action == StripReservationAction::Publish && chunk.last_strip_replacement == Some(
            *group_id,
        ) {
            return Ok(MutationStep::Answer(None));
        }
        let mut group = match stored {
            Some(group) => group,
            None => {
                return Err(LifecycleError::StateConflict);
            },
        };
        let ghost stored_model = group@;
        if group.writer_epoch != fence.writer_epoch || group.lease_generation
            != fence.lease_generation {
            return Err(LifecycleError::StateConflict);
        }
        match validate_group_shape(&group) {
            Ok(()) => {},
            Err(e) => {
                return Err(e);
            },
        }
        let index: usize = match find_sequence(&group.strips, update.strip_sequence) {
            Some(index) => index,
            None => {
                return Err(
                    LifecycleError::StripIndexOutOfRange {
                        index: update.strip_sequence,
                        len: group.strips.len(),
                    },
                );
            },
        };
        assert(group@.strips[index as int] == group.strips@[index as int]@);
        let state = match group.states[index] {
            ReservationCode::Known(state) => state,
            ReservationCode::Unknown(_) => {
                return Err(invalid_request("invalid reservation state"));
            },
        };
        if now_ms > group.lease_deadline_ms && state == StripReservationState::Reserved
            && update.action != StripReservationAction::Cancel {
            return Err(LifecycleError::StateConflict);
        }
        match update.action {
            StripReservationAction::Consume => {
                if state == StripReservationState::Reserved {
                    group.states.set(index, ReservationCode::Known(StripReservationState::Consumed));
                    return Ok(MutationStep::PutGroup(group));
                }
                if state != StripReservationState::Consumed {
                    return Err(LifecycleError::StateConflict);
                }
                Ok(MutationStep::Answer(Some(group)))
            },
            StripReservationAction::Confirm => {
                if state == StripReservationState::Consumed {
                    if chunk.modify_ts != fence.expected_modify_ts {
                        return Err(LifecycleError::StateConflict);
                    }
                    let next = match Self::confirm_reserved_strip(
                        chunk,
                        &group.strips[index],
                        update,
                    ) {
                        Ok(next) => next,
                        Err(e) => {
                            return Err(e);
                        },
                    };
                    let strip = group.strips[index].clone();
                    group.states.set(
                        index,
                        ReservationCode::Known(StripReservationState::Confirmed),
                    );
                    return Ok(MutationStep::Confirm { chunk: next, group, strip });
                }
                if state != StripReservationState::Confirmed {
                    return Err(LifecycleError::StateConflict);
                }
                match find_sequence(&chunk.strips, update.strip_sequence) {
                    Some(_) => Ok(MutationStep::Answer(Some(group))),
                    None => Err(LifecycleError::StateConflict),
                }
            },
            StripReservationAction::Cancel => {
                let rollback = group.strips[index].clone();
                if state == StripReservationState::Reserved {
                    group.states.set(
                        index,
                        ReservationCode::Known(StripReservationState::Cancelled),
                    );
                    return Ok(MutationStep::Cancel { group, changed: true, rollback });
                }
                if state != StripReservationState::Cancelled {
                    return Err(LifecycleError::StateConflict);
                }
                Ok(MutationStep::Cancel { group, changed: false, rollback })
            },
            StripReservationAction::Renew => {
                if state != StripReservationState::Reserved && state
                    != StripReservationState::Consumed {
                    return Err(LifecycleError::StateConflict);
                }
                group.lease_generation = sat_add_u64(group.lease_generation, 1);
                group.lease_deadline_ms =
                writer_lease_deadline(now_ms, fence.writer_epoch, fence.lease_ms);
                Ok(MutationStep::PutGroup(group))
            },
            StripReservationAction::Publish => {
                if chunk.modify_ts != fence.expected_modify_ts {
                    return Err(LifecycleError::StateConflict);
                }
                match self.publish_conversion_group(snap, pool, chunk, &group, now_ms) {
                    Ok(plan) => Ok(
                        MutationStep::Publish { chunk: plan.chunk, commit: plan.commit },
                    ),
                    Err(e) => Err(e),
                }
            },
        }
    }
}

// ---------------------------------------------------------------------------
// Reclaiming.
// ---------------------------------------------------------------------------

/// What reclaiming the unconsumed strips of a group takes.
#[derive(Debug)]
pub struct ReclaimPlan {
    /// The group to store, where a strip is given back.
    pub group: StripReservationGroup,
    /// Strips to free after the group was stored; where there are none, the
    /// group is not stored.
    pub rollback: Vec<ChunkStrip>,
    /// Nothing of the group is in use any more: its parity is freed and its
    /// record deleted.
    pub finished: bool,
}

/// The states with every reserved strip cancelled.
pub open spec fn cancelled(states: Seq<ReservationCode>) -> Seq<ReservationCode> {
    Seq::new(
        states.len(),
        |i: int|
            if states[i] == ReservationCode::Known(StripReservationState::Reserved) {
                ReservationCode::Known(StripReservationState::Cancelled)
            } else {
                states[i]
            },
    )
}

/// The strip is given back: reserved, or cancelled before.
pub open spec fn given_back(state: ReservationCode) -> bool {
    state == ReservationCode::Known(StripReservationState::Reserved) || state
        == ReservationCode::Known(StripReservationState::Cancelled)
}

/// The strips that are given back, in order.
pub open spec fn unconsumed(strips: Seq<StripModel>, states: Seq<ReservationCode>) -> Seq<StripModel>
    decreases strips.len(),
{
    if strips.len() == 0 {
        Seq::empty()
    } else {
        let front = unconsumed(strips.drop_last(), states);
        if given_back(states[strips.len() - 1]) {
            front.push(strips.last())
        } else {
            front
        }
    }
}

/// Every strip is confirmed or cancelled.
pub open spec fn all_settled(states: Seq<ReservationCode>) -> bool {
    forall|i: int| 0 <= i < states.len() ==> settled(#[trigger] states[i])
}

/// The strip is confirmed or cancelled.
pub open spec fn settled(state: ReservationCode) -> bool {
    state == ReservationCode::Known(StripReservationState::Confirmed) || state
        == ReservationCode::Known(StripReservationState::Cancelled)
}

/// Decides what to reclaim of a group.
pub fn reclaim_unconsumed_reservations(group: StripReservationGroup) -> (r: Result<
    ReclaimPlan,
    LifecycleError,
>)
    ensures
        match r {
            Ok(plan) => group@.states.len() == group@.strips.len() && plan.group@ == (GroupModel {
                states: cancelled(group@.states),
                ..group@
            }) && strip_models(plan.rollback@) == unconsumed(group@.strips, group@.states)
                && plan.finished == all_settled(cancelled(group@.states)),
            Err(e) => group@.states.len() != group@.strips.len() && e@
                == LifecycleErrorModel::InvalidRequest("reservation state and strip counts differ"@),
        },
{
    match validate_group_shape(&group) {
        Ok(()) => {},
        Err(e) => {
            return Err(e);
        },
    }
    let ghost before = group@;
    let mut group = group;
    let mut rollback: Vec<ChunkStrip> = Vec::new();
    let mut finished = true;
    let n: usize = group.strips.len();
    let mut i: usize = 0;
    assert(strip_models(rollback@) =~= Seq::<StripModel>::empty());
    while i < n
        invariant
            i <= n,
            n == before.strips.len(),
            n == before.states.len(),
            n == group.states@.len(),
            group@ == (GroupModel { states: group.states@, ..before }),
            forall|j: int| 0 <= j < i ==> #[trigger] group.states@[j] == cancelled(before.states)[j],
            forall|j: int| i <= j < n ==> #[trigger] group.states@[j] == before.states[j],
            strip_models(rollback@) == unconsumed(before.strips.take(i as int), before.states),
            finished == (forall|j: int| 0 <= j < i ==> settled(#[trigger] cancelled(before.states)[j])),
        decreases n - i,
    {
        proof {
            assert(before.strips.take(i + 1).drop_last() =~= before.strips.take(i as int));
            assert(before.strips.take(i + 1).last() == group.strips@[i as int]@) by {
                assert(group@.strips[i as int] == group.strips@[i as int]@);
            }
        }
        let ghost rolled = rollback@;
        let code = group.states[i];
        let reserved = code == ReservationCode::Known(StripReservationState::Reserved);
        let gone = code == ReservationCode::Known(StripReservationState::Cancelled);
        if reserved {
            group.states.set(i, ReservationCode::Known(StripReservationState::Cancelled));
        }
        if reserved || gone {
            let strip = group.strips[i].clone();
            let ghost model = strip@;
            rollback.push(strip);
            assert(strip_models(rollback@) =~= strip_models(rolled).push(model));
        } else if code != ReservationCode::Known(StripReservationState::Confirmed) {
            finished = false;
            assert(!settled(cancelled(before.states)[i as int]));
        }
        i = i + 1;
    }
    proof {
        assert(before.strips.take(i as int) =~= before.strips);
        assert(group.states@ =~= cancelled(before.states));
        assert(finished == all_settled(cancelled(before.states)));
    }
    Ok(ReclaimPlan { group, rollback, finished })
}

// ---------------------------------------------------------------------------
// Laws.
// ---------------------------------------------------------------------------

/// How far a strip is in its life: reserved, consumed, settled.
pub open spec fn stage(state: StripReservationState) -> int {
    match state {
        StripReservationState::Reserved => 0,
        StripReservationState::Consumed => 1,
        StripReservationState::Confirmed => 2,
        StripReservationState::Cancelled => 2,
    }
}

/// The states of a group after a step; the same where none is stored.
pub open spec fn states_after(step: MutationModel, group: GroupModel) -> Seq<ReservationCode> {
    match step {
        MutationModel::PutGroup(next) => next.states,
        MutationModel::Confirm { group: next, .. } => next.states,
        MutationModel::Cancel { group: next, .. } => next.states,
        _ => group.states,
    }
}

proof fn lemma_strip_with_sequence(strips: Seq<StripModel>, sequence: u32, from: int)
    requires
        0 <= from,
    ensures
        strip_with_sequence(strips, sequence, from) matches Some(i) ==> from <= i < strips.len(),
    decreases strips.len() - from,
{
    if from < strips.len() && strips[from].strip_sequence != sequence {
        lemma_strip_with_sequence(strips, sequence, from + 1);
    }
}

/// A reserved strip only moves on: no change takes it back, a settled strip
/// stays as it is, and only the named strip changes.
pub proof fn law_reservation_moves_on(
    snap: &TopologySnapshot,
    owners: Map<(u64, u64), u64>,
    chunk: ChunkModel,
    group_id: ChunkId,
    group: GroupModel,
    fence: ReservationFence,
    update: ReservationUpdate,
    allow_unsafe: bool,
    layout_validity_ms: u64,
    now_ms: u64,
    i: int,
)
    requires
        0 <= i < group.states.len(),
    ensures
        mutation(
            snap,
            owners,
            chunk,
            group_id,
            Some(group),
            fence,
            update,
            allow_unsafe,
            layout_validity_ms,
            now_ms,
        ) matches Ok(step) ==> {
            let after = states_after(step, group);
            &&& after.len() == group.states.len()
            &&& after[i] != group.states[i] ==> {
                &&& strip_with_sequence(group.strips, update.strip_sequence, 0) == Some(i)
                &&& group.states[i] matches ReservationCode::Known(from)
                &&& after[i] matches ReservationCode::Known(to)
                &&& stage(from) < stage(to)
            }
        },
{
    lemma_strip_with_sequence(group.strips, update.strip_sequence, 0);
}

/// Confirming keeps a chunk's end where its strips end: the new capacity is the
/// old one and the strip's, as long as it fits.
pub proof fn law_confirm_extends(chunk: ChunkModel, strip: StripModel, update: ReservationUpdate)
    requires
        crate::lifecycle::laws::well_laid(chunk),
        chunk.capacity + strip.capacity <= u32::MAX,
    ensures
        confirmed(chunk, strip, update) matches Ok(next) ==> {
            &&& crate::lifecycle::laws::well_laid(next)
            &&& next.capacity == chunk.capacity + strip.capacity
            &&& chunk.acknowledged_cursor < next.acknowledged_cursor <= next.capacity * 1024
        },
{
    if let Ok(next) = confirmed(chunk, strip, update) {
        let n = chunk.strips.len() as int;
        assert(next.strips.drop_last() =~= chunk.strips);
        assert forall|i: int| 0 <= i < next.strips.len() implies #[trigger]
            crate::lifecycle::laws::follows(next.strips, 0, i) by {
            if i < n {
                assert(crate::lifecycle::laws::follows(chunk.strips, 0, i));
                assert(next.strips.take(i) =~= chunk.strips.take(i));
            } else {
                assert(next.strips.take(n) =~= chunk.strips);
            }
        }
    }
}

/// A reservation that was stored is answered with its group when it is asked for
/// again: nothing is allocated, whatever revision the chunk has by then, as long
/// as it is active under the same writer.
pub proof fn law_reservation_retry(
    chunk: ChunkModel,
    chunk_id: ChunkId,
    group_id: ChunkId,
    fence: ReservationFence,
    spec: ReserveGroupSpec,
    strips: Seq<StripModel>,
    parity_segments: Seq<Segment>,
    preferred_survivors: Seq<u32>,
    now_ms: u64,
    later: ChunkModel,
)
    requires
        strips.len() == spec.strip_count,
        forall|i: int| 0 <= i < strips.len() ==> reserved_as(#[trigger] strips[i], spec),
        later.state == ChunkState::Active,
        later.writer_epoch == fence.writer_epoch,
    ensures
        reservation_plan(
            later,
            Some(
                new_group(
                    chunk,
                    chunk_id,
                    group_id,
                    fence,
                    spec,
                    strips,
                    parity_segments,
                    preferred_survivors,
                    now_ms,
                ),
            ),
            chunk_id,
            group_id,
            fence,
            spec,
        ) == Ok::<ReservePlan, LifecycleErrorModel>(ReservePlan::Existing),
{
    let placed = placed_from(strips, chunk.capacity);
    assert forall|i: int| 0 <= i < placed.len() implies reserved_as(#[trigger] placed[i], spec) by {
        assert(reserved_as(strips[i], spec));
        assert(placed[i].mirror_segments() == strips[i].mirror_segments());
    }
}

/// A published group is answered with the record when it is published again.
pub proof fn law_publish_retry(
    snap: &TopologySnapshot,
    owners: Map<(u64, u64), u64>,
    chunk: ChunkModel,
    group_id: ChunkId,
    group: GroupModel,
    fence: ReservationFence,
    update: ReservationUpdate,
    allow_unsafe: bool,
    layout_validity_ms: u64,
    now_ms: u64,
    stored: Option<GroupModel>,
    retry_now_ms: u64,
)
    requires
        group.group_id == Some(group_id),
    ensures
        mutation(
            snap,
            owners,
            chunk,
            group_id,
            Some(group),
            fence,
            update,
            allow_unsafe,
            layout_validity_ms,
            now_ms,
        ) matches Ok(MutationModel::Publish { chunk: next, .. }) ==> mutation(
            snap,
            owners,
            next,
            group_id,
            stored,
            fence,
            update,
            allow_unsafe,
            layout_validity_ms,
            retry_now_ms,
        ) == Ok::<MutationModel, LifecycleErrorModel>(MutationModel::Answer(None)),
{
}

} // verus!
