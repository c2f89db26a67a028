//! What reservations do to a chunk and its group, told on their fields.
use vstd::prelude::*;
use crate::allocator::StripAllocType;
use crate::lifecycle::effects::one_behind_the_other;
use crate::lifecycle::handler::strip_with_sequence;
use crate::lifecycle::reservation::{
    cancelled, confirmed, group_matches, mutation, new_group, publication, published,
    reservation_plan, reserved_chunk, settled, unconsumed, GroupModel, MutationModel,
    ReservationCode, ReservationFence, ReservationUpdate, ReserveGroupSpec, ReservePlan,
    StripReservationAction, StripReservationState,
};
use crate::lifecycle::survivors::{
    conversion_survivors, law_survivors_respect_limit, load, located, node_limit, places_of,
};
use crate::topology::{HwStatus, TopologySnapshot};
use crate::types::{
    lemma_capacity_nonnegative, total_capacity, ChunkId, ChunkModel, ChunkState, EcState,
    LayoutModel, Segment, StripModel,
};

verus! {

/// A group is reserved only for the writer and the revision that the chunk has.
/// A stored group answers where it is the very one that is asked for. Without a
/// conversion, mirrors are reserved from the next free sequence on; with one, as
/// many as it has data shards.
pub proof fn law_reservation_needs_the_writer(
    chunk: ChunkModel,
    existing: Option<GroupModel>,
    chunk_id: ChunkId,
    group_id: ChunkId,
    fence: ReservationFence,
    spec: ReserveGroupSpec,
)
    ensures
        reservation_plan(chunk, existing, chunk_id, group_id, fence, spec) matches Ok(plan) ==> {
            &&& chunk.state == ChunkState::Active
            &&& chunk.writer_epoch == fence.writer_epoch
            &&& plan is Existing <==> existing is Some
            &&& existing is None ==> chunk.modify_ts == fence.expected_modify_ts
            &&& existing matches Some(group) ==> {
                &&& group.chunk_id == Some(chunk_id)
                &&& group.group_id == Some(group_id)
                &&& group.writer_epoch == fence.writer_epoch
                &&& group.lease_generation == fence.lease_generation
                &&& group.strips.len() == spec.strip_count
                &&& group.states.len() == spec.strip_count
                &&& group.data_num == spec.conversion_data_num
                &&& group.code_num == spec.conversion_code_num
                &&& forall|i: int|
                    0 <= i < group.strips.len() ==> {
                        &&& (#[trigger] group.strips[i]).strip matches Some(LayoutModel::Mirror {
                            segments,
                        }) ==> segments.len() == spec.copy_count
                        &&& spec.strip_size * group.strips[i].unit_kb <= u32::MAX
                            ==> group.strips[i].capacity == spec.strip_size * group.strips[i].unit_kb
                    }
            }
            &&& match plan {
                ReservePlan::Existing => true,
                ReservePlan::Mirrors(batch) => {
                    &&& spec.conversion_data_num == 0 && spec.conversion_code_num == 0
                    &&& batch.strip_type == StripAllocType::Mirror {
                        copy_count: spec.copy_count as usize,
                    }
                    &&& batch.unit_count == spec.strip_size
                    &&& batch.start_sequence == chunk.next_strip_sequence
                    &&& batch.strip_count == spec.strip_count
                },
                ReservePlan::Conversion {
                    unit_count,
                    start_sequence,
                    data_num,
                    code_num,
                    copy_count,
                } => {
                    &&& spec.strip_count == spec.conversion_data_num
                    &&& spec.conversion_code_num > 0
                    &&& unit_count == spec.strip_size
                    &&& start_sequence == chunk.next_strip_sequence
                    &&& data_num == spec.conversion_data_num
                    &&& code_num == spec.conversion_code_num
                    &&& copy_count == spec.copy_count
                },
            }
        },
        chunk.state == ChunkState::Active && chunk.writer_epoch == fence.writer_epoch && existing is None
            && chunk.modify_ts == fence.expected_modify_ts && (spec.conversion_data_num == 0
            && spec.conversion_code_num == 0 || spec.strip_count == spec.conversion_data_num
            && spec.conversion_code_num > 0) ==> reservation_plan(
            chunk,
            existing,
            chunk_id,
            group_id,
            fence,
            spec,
        ) is Ok,
{
    if let Some(group) = existing {
        assert(forall|i: int|
            0 <= i < group.strips.len() ==> (#[trigger] group.strips[i]).mirror_segments().len()
                >= 0);
        if group_matches(group, chunk_id, group_id, fence, spec) {
            assert forall|i: int| 0 <= i < group.strips.len() implies {
                &&& (#[trigger] group.strips[i]).strip matches Some(LayoutModel::Mirror {
                    segments,
                }) ==> segments.len() == spec.copy_count
                &&& spec.strip_size * group.strips[i].unit_kb <= u32::MAX
                    ==> group.strips[i].capacity == spec.strip_size * group.strips[i].unit_kb
            } by {
                assert(crate::lifecycle::reservation::reserved_as(group.strips[i], spec));
                assert(spec.strip_size * group.strips[i].unit_kb >= 0) by (nonlinear_arith);
            }
        }
    }
}

/// A new group holds the strips behind the chunk's capacity, all of them reserved
/// and none planned or closed, for the writer and the lease that asked. The chunk
/// itself only counts their sequences, one revision and the lease.
pub proof fn law_reserved_strips_stand_behind(
    chunk: ChunkModel,
    chunk_id: ChunkId,
    group_id: ChunkId,
    fence: ReservationFence,
    spec: ReserveGroupSpec,
    strips: Seq<StripModel>,
    parity_segments: Seq<Segment>,
    preferred_survivors: Seq<u32>,
    now_ms: u64,
)
    requires
        chunk.capacity + total_capacity(strips) <= u32::MAX,
        chunk.next_strip_sequence + spec.strip_count <= u32::MAX,
        fence.writer_epoch != 0,
        now_ms + fence.lease_ms <= u64::MAX,
    ensures
        ({
            let group = new_group(
                chunk,
                chunk_id,
                group_id,
                fence,
                spec,
                strips,
                parity_segments,
                preferred_survivors,
                now_ms,
            );
            &&& group.group_id == Some(group_id) && group.chunk_id == Some(chunk_id)
            &&& group.writer_epoch == fence.writer_epoch
            &&& group.lease_generation == fence.lease_generation
            &&& group.lease_deadline_ms == now_ms + fence.lease_ms
            &&& group.placement_epoch == now_ms
            &&& group.strips.len() == strips.len() && group.states.len() == strips.len()
            &&& group.planned_cursors.len() == strips.len()
            &&& group.planned_closed_sequences.len() == strips.len()
            &&& forall|i: int|
                0 <= i < strips.len() ==> {
                    &&& (#[trigger] group.strips[i]) == StripModel {
                        chunk_offset: group.strips[i].chunk_offset,
                        ..strips[i]
                    }
                    &&& group.states[i] == ReservationCode::Known(StripReservationState::Reserved)
                    &&& group.planned_cursors[i] == 0
                    &&& group.planned_closed_sequences[i] == u32::MAX
                }
            &&& one_behind_the_other(group.strips)
            &&& strips.len() > 0 ==> group.strips[0].chunk_offset == chunk.capacity
            &&& group.parity_segments == parity_segments
            &&& group.preferred_survivors == preferred_survivors
            &&& group.data_num == spec.conversion_data_num
            &&& group.code_num == spec.conversion_code_num
        }),
        ({
            let next = reserved_chunk(chunk, fence, spec, now_ms);
            &&& next.next_strip_sequence == chunk.next_strip_sequence + spec.strip_count
            &&& chunk.modify_ts < u64::MAX ==> next.modify_ts == chunk.modify_ts + 1
            &&& next.writer_lease_deadline_ms == now_ms + fence.lease_ms
            &&& next == ChunkModel {
                next_strip_sequence: next.next_strip_sequence,
                modify_ts: next.modify_ts,
                writer_lease_deadline_ms: next.writer_lease_deadline_ms,
                ..chunk
            }
        }),
{
    crate::lifecycle::effects::law_placed_strips_follow(strips, chunk.capacity);
}

proof fn lemma_place_of_sequence(strips: Seq<StripModel>, sequence: u32, from: int)
    requires
        0 <= from,
    ensures
        match strip_with_sequence(strips, sequence, from) {
            Some(k) => from <= k < strips.len() && strips[k].strip_sequence == sequence && forall|
                j: int,
            |
                from <= j < k ==> (#[trigger] strips[j]).strip_sequence != sequence,
            None => forall|j: int|
                from <= j < strips.len() ==> (#[trigger] strips[j]).strip_sequence != sequence,
        },
    decreases strips.len() - from,
{
    if from < strips.len() && strips[from].strip_sequence != sequence {
        lemma_place_of_sequence(strips, sequence, from + 1);
    }
}

/// A reserved strip is changed only under its writer and its lease generation, and
/// only as the action says: a consumed one was reserved, a confirmed one becomes the
/// chunk's last strip with the writer's cursor, a cancelled one is given back, a
/// renewal only moves the lease. An expired reservation can only be cancelled.
pub proof fn law_reservations_follow_their_actions(
    snap: &TopologySnapshot,
    owners: Map<(u64, u64), u64>,
    chunk: ChunkModel,
    group_id: ChunkId,
    group: GroupModel,
    index: int,
    fence: ReservationFence,
    update: ReservationUpdate,
    allow_unsafe: bool,
    layout_validity_ms: u64,
    now_ms: u64,
)
    requires
        0 <= index < group.strips.len(),
        group.strips[index].strip_sequence == update.strip_sequence,
        forall|j: int|
            0 <= j < index ==> (#[trigger] group.strips[j]).strip_sequence != update.strip_sequence,
        update.action != StripReservationAction::Publish,
    ensures
        mutation(
            snap,
            owners,
            chunk,
            group_id,
            Some(group),
            fence,
            update,
            allow_unsafe,
            layout_validity_ms,
            now_ms,
        ) matches Ok(step) ==> {
            let before = group.states[index];
            &&& chunk.state == ChunkState::Active
            &&& chunk.writer_epoch == fence.writer_epoch
            &&& group.writer_epoch == fence.writer_epoch
            &&& group.lease_generation == fence.lease_generation
            &&& before == ReservationCode::Known(StripReservationState::Reserved) && now_ms
                > group.lease_deadline_ms ==> update.action == StripReservationAction::Cancel
            &&& match update.action {
                StripReservationAction::Consume => if before == ReservationCode::Known(
                    StripReservationState::Consumed,
                ) {
                    step == MutationModel::Answer(Some(group))
                } else {
                    &&& before == ReservationCode::Known(StripReservationState::Reserved)
                    &&& step == MutationModel::PutGroup(
                        GroupModel {
                            states: group.states.update(
                                index,
                                ReservationCode::Known(StripReservationState::Consumed),
                            ),
                            ..group
                        },
                    )
                },
                StripReservationAction::Confirm => if before == ReservationCode::Known(
                    StripReservationState::Confirmed,
                ) {
                    &&& step == MutationModel::Answer(Some(group))
                    &&& exists|k: int|
                        0 <= k < chunk.strips.len() && (#[trigger] chunk.strips[k]).strip_sequence
                            == update.strip_sequence
                } else {
                    &&& before == ReservationCode::Known(StripReservationState::Consumed)
                    &&& chunk.modify_ts == fence.expected_modify_ts
                    &&& group.strips[index].chunk_offset == chunk.capacity
                    &&& chunk.acknowledged_cursor < update.acknowledged_cursor
                    &&& chunk.capacity + group.strips[index].capacity <= u32::MAX
                        ==> update.acknowledged_cursor <= (chunk.capacity
                        + group.strips[index].capacity) * 1024
                    &&& step matches MutationModel::Confirm { chunk: next, group: held, strip }
                    &&& strip == group.strips[index]
                    &&& held == GroupModel {
                        states: group.states.update(
                            index,
                            ReservationCode::Known(StripReservationState::Confirmed),
                        ),
                        ..group
                    }
                    &&& chunk.capacity + strip.capacity <= u32::MAX ==> next.capacity
                        == chunk.capacity + strip.capacity
                    &&& chunk.modify_ts < u64::MAX ==> next.modify_ts == chunk.modify_ts + 1
                    &&& next == ChunkModel {
                        strips: chunk.strips.push(group.strips[index]),
                        acknowledged_cursor: update.acknowledged_cursor,
                        closed_strip_sequence: update.closed_strip_sequence,
                        capacity: next.capacity,
                        modify_ts: next.modify_ts,
                        ..chunk
                    }
                },
                StripReservationAction::Cancel => {
                    &&& step matches MutationModel::Cancel { group: held, changed, rollback }
                    &&& rollback == group.strips[index]
                    &&& held == GroupModel {
                        states: group.states.update(
                            index,
                            ReservationCode::Known(StripReservationState::Cancelled),
                        ),
                        ..group
                    }
                    &&& changed <==> before == ReservationCode::Known(
                        StripReservationState::Reserved,
                    )
                    &&& !changed ==> before == ReservationCode::Known(
                        StripReservationState::Cancelled,
                    )
                },
                StripReservationAction::Renew => {
                    &&& before == ReservationCode::Known(StripReservationState::Reserved) || before
                        == ReservationCode::Known(StripReservationState::Consumed)
                    &&& step matches MutationModel::PutGroup(held)
                    &&& group.lease_generation < u64::MAX ==> held.lease_generation
                        == group.lease_generation + 1
                    &&& fence.writer_epoch != 0 && now_ms + fence.lease_ms <= u64::MAX
                        ==> held.lease_deadline_ms == now_ms + fence.lease_ms
                    &&& held == GroupModel {
                        lease_generation: held.lease_generation,
                        lease_deadline_ms: held.lease_deadline_ms,
                        ..group
                    }
                },
                StripReservationAction::Publish => true,
            }
        },
{
    lemma_place_of_sequence(group.strips, update.strip_sequence, 0);
    lemma_place_of_sequence(chunk.strips, update.strip_sequence, 0);
    let found = strip_with_sequence(group.strips, update.strip_sequence, 0);
    if let Some(k) = found {
        if k < index {
            assert(group.strips[k].strip_sequence != update.strip_sequence);
        }
        if index < k {
            assert(group.strips[index].strip_sequence != update.strip_sequence);
        }
    } else {
        assert(group.strips[index].strip_sequence != update.strip_sequence);
    }
    assert(found == Some(index));
    if group.states.len() == group.strips.len() {
        assert(group.states.update(index, group.states[index]) =~= group.states);
        if let Some(k) = strip_with_sequence(chunk.strips, update.strip_sequence, 0) {
            assert(chunk.strips[k].strip_sequence == update.strip_sequence);
        }
    }
}

/// A group is published only under its writer and revision, once all its strips
/// are confirmed, written and closed, and still stand in the chunk one behind the
/// other. One erasure-coded strip then stands in their place: one copy of each of
/// them, and the parity. The other copies retire, not to be freed before the
/// layout has run out.
pub proof fn law_published_group_becomes_one_strip(
    snap: &TopologySnapshot,
    owners: Map<(u64, u64), u64>,
    chunk: ChunkModel,
    group: GroupModel,
    allow_unsafe: bool,
    now_ms: u64,
    layout_validity_ms: u64,
    start: int,
)
    requires
        0 <= start < chunk.strips.len(),
        group.strips.len() > 0 ==> chunk.strips[start].strip_sequence
            == group.strips[0].strip_sequence,
        forall|j: int|
            0 <= j < start ==> (#[trigger] chunk.strips[j]).strip_sequence
                != chunk.strips[start].strip_sequence,
        total_capacity(chunk.strips) <= u32::MAX,
        group.strips.len() > 0 ==> group.strips.last().chunk_offset + group.strips.last().capacity
            <= u32::MAX,
        total_capacity(group.strips) <= u32::MAX,
    ensures
        publication(
            snap,
            owners,
            chunk,
            group,
            allow_unsafe,
            now_ms,
            layout_validity_ms,
        ) matches Some(next) ==> {
            let kept = conversion_survivors(
                snap,
                owners,
                group.strips,
                group.parity_segments,
                node_limit(group.data_num, group.code_num, allow_unsafe) as nat,
            )->0;
            let n = group.strips.len() as int;
            let strip = next.strips[start];
            &&& group.data_num > 0 && group.code_num > 0
            &&& n == group.data_num
            &&& group.parity_segments.len() == group.code_num
            &&& forall|i: int|
                0 <= i < group.states.len() ==> (#[trigger] group.states[i])
                    == ReservationCode::Known(StripReservationState::Confirmed)
            &&& 0 <= start && start + n <= chunk.strips.len()
            &&& forall|i: int|
                0 <= i < n ==> (#[trigger] group.strips[i]).strip == chunk.strips[start
                    + i].strip && group.strips[i].chunk_offset == chunk.strips[start
                    + i].chunk_offset && group.strips[i].capacity == chunk.strips[start
                    + i].capacity && group.strips[i].strip_sequence == chunk.strips[start
                    + i].strip_sequence
            &&& chunk.acknowledged_cursor >= (group.strips.last().chunk_offset
                + group.strips.last().capacity) * 1024
            &&& chunk.closed_strip_sequence is Some && chunk.closed_strip_sequence->0
                >= group.strips.last().strip_sequence
            &&& kept.len() == n
            &&& forall|i: int|
                0 <= i < n ==> (#[trigger] group.strips[i]).mirror_segments().contains(kept[i])
            &&& next.strips.len() == chunk.strips.len() - n + 1
            &&& next.strips.take(start) == chunk.strips.take(start)
            &&& next.strips.skip(start + 1) == chunk.strips.skip(start + n)
            &&& strip.chunk_offset == group.strips[0].chunk_offset
            &&& strip.strip_sequence == group.strips[0].strip_sequence
            &&& strip.unit_kb == group.strips[0].unit_kb
            &&& strip.capacity == total_capacity(group.strips)
            &&& strip.strip == Some(
                LayoutModel::Ec {
                    data_num: group.data_num,
                    code_num: group.code_num,
                    ec_state: EcState::Parity,
                    segments: kept + group.parity_segments,
                },
            )
            &&& strip.unavailable_segments.len() == 0
            &&& chunk.modify_ts < u64::MAX ==> next.modify_ts == chunk.modify_ts + 1
            &&& next.last_strip_replacement == group.group_id
            &&& next.cleanup_intents.take(chunk.cleanup_intents.len() as int)
                == chunk.cleanup_intents
            &&& next.cleanup_intents.len() > chunk.cleanup_intents.len() ==> {
                let intent = next.cleanup_intents.last();
                &&& next.cleanup_intents.len() == chunk.cleanup_intents.len() + 1
                &&& intent.operation_id == group.group_id
                &&& now_ms + layout_validity_ms <= u64::MAX ==> intent.not_before_ms == now_ms
                    + layout_validity_ms
            }
            &&& forall|i: int, s: Segment|
                0 <= i < n && #[trigger] group.strips[i].mirror_segments().contains(s)
                    && !kept.contains(s) ==> next.cleanup_intents.len()
                    > chunk.cleanup_intents.len()
                    && next.cleanup_intents.last().retired_segments.contains(s)
        },
{
    if let Some(next) = publication(
        snap,
        owners,
        chunk,
        group,
        allow_unsafe,
        now_ms,
        layout_validity_ms,
    ) {
        let n = group.strips.len() as int;
        lemma_place_of_sequence(chunk.strips, group.strips[0].strip_sequence, 0);
        let found = strip_with_sequence(chunk.strips, group.strips[0].strip_sequence, 0)->0;
        if found < start {
            assert(chunk.strips[found].strip_sequence != chunk.strips[start].strip_sequence);
        }
        if start < found {
            assert(chunk.strips[start].strip_sequence != group.strips[0].strip_sequence);
        }
        let limit = node_limit(group.data_num, group.code_num, allow_unsafe) as nat;
        let kept = conversion_survivors(
            snap,
            owners,
            group.strips,
            group.parity_segments,
            limit,
        )->0;
        law_survivors_respect_limit(snap, owners, group.strips, group.parity_segments, limit);
        lemma_capacity_nonnegative(group.strips);
        assert(next.strips.take(start) =~= chunk.strips.take(start));
        assert(next.strips.skip(start + 1) =~= chunk.strips.skip(start + n));
        assert forall|i: int| 0 <= i < n implies (#[trigger] group.strips[i]).strip
            == chunk.strips[start + i].strip && group.strips[i].chunk_offset == chunk.strips[start
            + i].chunk_offset && group.strips[i].capacity == chunk.strips[start + i].capacity
            && group.strips[i].strip_sequence == chunk.strips[start + i].strip_sequence by {
            assert(crate::lifecycle::reservation::same_layout(
                chunk.strips[start + i],
                group.strips[i],
            ));
        }
        assert(next.cleanup_intents.take(chunk.cleanup_intents.len() as int)
            =~= chunk.cleanup_intents);
        let copies = crate::lifecycle::reservation::mirror_copies(group.strips);
        let retired = crate::lifecycle::handler::unreferenced(copies, kept);
        assert forall|i: int, s: Segment|
            0 <= i < n && #[trigger] group.strips[i].mirror_segments().contains(s)
                && !kept.contains(s) implies next.cleanup_intents.len()
            > chunk.cleanup_intents.len() && next.cleanup_intents.last().retired_segments.contains(s)
            by {
            lemma_copies_contain(group.strips, i, s);
            lemma_retired(copies, kept, s);
        }
    }
}

/// The writer of an active chunk may consume, cancel or renew what it reserved
/// while its lease runs, renew and confirm what it consumed, and ask again for what
/// it has.
pub proof fn law_reservation_actions_are_accepted(
    snap: &TopologySnapshot,
    owners: Map<(u64, u64), u64>,
    chunk: ChunkModel,
    group_id: ChunkId,
    group: GroupModel,
    index: int,
    fence: ReservationFence,
    update: ReservationUpdate,
    allow_unsafe: bool,
    layout_validity_ms: u64,
    now_ms: u64,
)
    requires
        0 <= index < group.strips.len(),
        group.states.len() == group.strips.len(),
        group.strips[index].strip_sequence == update.strip_sequence,
        forall|j: int|
            0 <= j < index ==> (#[trigger] group.strips[j]).strip_sequence != update.strip_sequence,
        chunk.state == ChunkState::Active,
        chunk.writer_epoch == fence.writer_epoch,
        group.writer_epoch == fence.writer_epoch,
        group.lease_generation == fence.lease_generation,
        chunk.capacity + group.strips[index].capacity <= u32::MAX,
        match update.action {
            StripReservationAction::Consume => (group.states[index] == ReservationCode::Known(
                StripReservationState::Reserved,
            ) && now_ms <= group.lease_deadline_ms) || group.states[index]
                == ReservationCode::Known(StripReservationState::Consumed),
            StripReservationAction::Confirm => group.states[index] == ReservationCode::Known(
                StripReservationState::Consumed,
            ) && chunk.modify_ts == fence.expected_modify_ts && group.strips[index].chunk_offset
                == chunk.capacity && chunk.acknowledged_cursor < update.acknowledged_cursor <= (
            chunk.capacity + group.strips[index].capacity) * 1024,
            StripReservationAction::Cancel => group.states[index] == ReservationCode::Known(
                StripReservationState::Reserved,
            ) || group.states[index] == ReservationCode::Known(StripReservationState::Cancelled),
            StripReservationAction::Renew => (group.states[index] == ReservationCode::Known(
                StripReservationState::Reserved,
            ) && now_ms <= group.lease_deadline_ms) || group.states[index]
                == ReservationCode::Known(StripReservationState::Consumed),
            StripReservationAction::Publish => false,
        },
    ensures
        mutation(
            snap,
            owners,
            chunk,
            group_id,
            Some(group),
            fence,
            update,
            allow_unsafe,
            layout_validity_ms,
            now_ms,
        ) is Ok,
{
    lemma_place_of_sequence(group.strips, update.strip_sequence, 0);
    match strip_with_sequence(group.strips, update.strip_sequence, 0) {
        Some(k) => {
            if k < index {
                assert(group.strips[k].strip_sequence != update.strip_sequence);
            }
            if index < k {
                assert(group.strips[index].strip_sequence != update.strip_sequence);
            }
        },
        None => {
            assert(group.strips[index].strip_sequence != update.strip_sequence);
        },
    }
}

/// A complete group that is written, closed and still stands in the chunk is
/// published where there are copies to keep.
pub proof fn law_complete_group_is_published(
    snap: &TopologySnapshot,
    owners: Map<(u64, u64), u64>,
    chunk: ChunkModel,
    group: GroupModel,
    allow_unsafe: bool,
    now_ms: u64,
    layout_validity_ms: u64,
    start: int,
)
    requires
        group.data_num > 0,
        group.code_num > 0,
        group.strips.len() == group.data_num,
        group.parity_segments.len() == group.code_num,
        forall|i: int|
            0 <= i < group.states.len() ==> (#[trigger] group.states[i]) == ReservationCode::Known(
                StripReservationState::Confirmed,
            ),
        0 <= start,
        start + group.strips.len() <= chunk.strips.len(),
        forall|i: int| 0 <= i < group.strips.len() ==> (#[trigger] group.strips[i]) == chunk.strips[start
            + i],
        forall|j: int|
            0 <= j < start ==> (#[trigger] chunk.strips[j]).strip_sequence
                != chunk.strips[start].strip_sequence,
        group.strips.last().chunk_offset + group.strips.last().capacity <= u32::MAX,
        chunk.acknowledged_cursor >= (group.strips.last().chunk_offset
            + group.strips.last().capacity) * 1024,
        chunk.closed_strip_sequence is Some,
        chunk.closed_strip_sequence->0 >= group.strips.last().strip_sequence,
        conversion_survivors(
            snap,
            owners,
            group.strips,
            group.parity_segments,
            node_limit(group.data_num, group.code_num, allow_unsafe) as nat,
        ) is Some,
    ensures
        publication(
            snap,
            owners,
            chunk,
            group,
            allow_unsafe,
            now_ms,
            layout_validity_ms,
        ) is Some,
{
    let sequence = group.strips[0].strip_sequence;
    assert(group.strips[0] == chunk.strips[start + 0]);
    lemma_place_of_sequence(chunk.strips, sequence, 0);
    match strip_with_sequence(chunk.strips, sequence, 0) {
        Some(k) => {
            if k < start {
                assert(chunk.strips[k].strip_sequence != chunk.strips[start].strip_sequence);
            }
            if start < k {
                assert(chunk.strips[start].strip_sequence != sequence);
            }
        },
        None => {
            assert(chunk.strips[start].strip_sequence != sequence);
        },
    }
    assert forall|i: int| 0 <= i < group.strips.len() implies
        crate::lifecycle::reservation::same_layout(
        #[trigger] chunk.strips[start + i],
        group.strips[i],
    ) by {
        assert(group.strips[i] == chunk.strips[start + i]);
    }
}

proof fn lemma_copies_contain(strips: Seq<StripModel>, i: int, s: Segment)
    requires
        0 <= i < strips.len(),
        strips[i].mirror_segments().contains(s),
    ensures
        crate::lifecycle::reservation::mirror_copies(strips).contains(s),
    decreases strips.len(),
{
    let front = crate::lifecycle::reservation::mirror_copies(strips.drop_last());
    let last = strips.last().mirror_segments();
    if i < strips.len() - 1 {
        lemma_copies_contain(strips.drop_last(), i, s);
        let k = choose|k: int| 0 <= k < front.len() && front[k] == s;
        assert((front + last)[k] == s);
    } else {
        let k = choose|k: int| 0 <= k < last.len() && last[k] == s;
        assert((front + last)[front.len() + k] == s);
    }
}

proof fn lemma_retired(copies: Seq<Segment>, kept: Seq<Segment>, s: Segment)
    requires
        copies.contains(s),
        !kept.contains(s),
    ensures
        crate::lifecycle::handler::unreferenced(copies, kept).contains(s),
    decreases copies.len(),
{
    let front = copies.drop_last();
    let before = crate::lifecycle::handler::unreferenced(front, kept);
    let all = crate::lifecycle::handler::unreferenced(copies, kept);
    let k = choose|k: int| 0 <= k < copies.len() && copies[k] == s;
    if k < front.len() {
        assert(front[k] == s);
        lemma_retired(front, kept, s);
        let i = choose|i: int| 0 <= i < before.len() && before[i] == s;
        assert(all[i] == s);
    } else {
        assert(all[all.len() - 1] == s);
    }
}

proof fn lemma_load_is_count(places: Seq<(u64, u64)>, node_id: u64)
    ensures
        load(places, node_id) == places.filter(|place: (u64, u64)| place.0 == node_id).len(),
    decreases places.len(),
{
    reveal(Seq::filter);
    if places.len() > 0 {
        lemma_load_is_count(places.drop_last(), node_id);
    }
}

/// The copies that a conversion keeps are one of each strip, each on a disk-group
/// that is up with its node and its rack. With the parity, no node gets more of
/// them than the limit: the parity count, or all shards where unsafe placement is
/// allowed.
pub proof fn law_kept_copies_are_spread(
    snap: &TopologySnapshot,
    owners: Map<(u64, u64), u64>,
    strips: Seq<StripModel>,
    parity: Seq<Segment>,
    data_num: u32,
    code_num: u32,
    allow_unsafe: bool,
    node_id: u64,
)
    requires
        data_num + code_num <= u32::MAX,
    ensures
        node_limit(data_num, code_num, false) == code_num,
        node_limit(data_num, code_num, true) == data_num + code_num,
        conversion_survivors(
            snap,
            owners,
            strips,
            parity,
            node_limit(data_num, code_num, allow_unsafe) as nat,
        ) matches Some(kept) ==> {
            let places = places_of(snap, owners, parity) + places_of(snap, owners, kept);
            &&& kept.len() == strips.len()
            &&& forall|i: int|
                0 <= i < strips.len() ==> (#[trigger] strips[i]).mirror_segments().contains(kept[i])
            &&& places.len() == parity.len() + kept.len()
            &&& (exists|i: int| 0 <= i < places.len() && (#[trigger] places[i]).0 == node_id)
                ==> places.filter(|place: (u64, u64)| place.0 == node_id).len() <= (
            if allow_unsafe {
                data_num + code_num
            } else {
                code_num as int
            })
            &&& forall|i: int| 0 <= i < kept.len() ==> located(snap, owners, #[trigger] kept[i]) is Some
            &&& forall|i: int|
                0 <= i < parity.len() ==> located(snap, owners, #[trigger] parity[i]) is Some
        },
{
    let limit = node_limit(data_num, code_num, allow_unsafe) as nat;
    law_survivors_respect_limit(snap, owners, strips, parity, limit);
    if let Some(kept) = conversion_survivors(snap, owners, strips, parity, limit) {
        let places = places_of(snap, owners, parity) + places_of(snap, owners, kept);
        lemma_load_is_count(places, node_id);
        if exists|i: int| 0 <= i < places.len() && (#[trigger] places[i]).0 == node_id {
            let i = choose|i: int| 0 <= i < places.len() && (#[trigger] places[i]).0 == node_id;
            assert(load(places, places[i].0) <= limit);
        }
    }
}

/// A segment is located where its disk's group is in the snapshot and is up with
/// its node and its rack: there.
pub proof fn law_segments_are_located_where_up(
    snap: &TopologySnapshot,
    owners: Map<(u64, u64), u64>,
    segment: Segment,
)
    ensures
        located(snap, owners, segment) matches Some(place) ==> exists|dg_id: u64|
            {
                let group = snap.disk_groups@[(dg_id, 0)];
                &&& segment.disk_id matches Some(disk)
                &&& owners.dom().contains((disk.high, disk.low)) && owners[(disk.high, disk.low)]
                    == dg_id
                &&& #[trigger] snap.disk_groups@.dom().contains((dg_id, 0))
                &&& group.value.status == HwStatus::Up
                &&& snap.nodes@.dom().contains((group.rack_id, group.node_id))
                &&& snap.nodes@[(group.rack_id, group.node_id)].status == HwStatus::Up
                &&& snap.racks@.dom().contains((group.rack_id, 0))
                &&& snap.racks@[(group.rack_id, 0)].status == HwStatus::Up
                &&& place == (group.node_id, group.rack_id)
            },
{
}

/// Reclaiming a group cancels what is only reserved and gives back the strips that
/// are reserved or cancelled, and no other. It is finished exactly where every strip
/// is then confirmed or cancelled.
pub proof fn law_unconsumed_strips_are_reclaimed(
    strips: Seq<StripModel>,
    states: Seq<ReservationCode>,
    s: StripModel,
)
    requires
        strips.len() == states.len(),
    ensures
        unconsumed(strips, states).contains(s) <==> exists|i: int|
            0 <= i < strips.len() && (#[trigger] strips[i]) == s && (states[i]
                == ReservationCode::Known(StripReservationState::Reserved) || states[i]
                == ReservationCode::Known(StripReservationState::Cancelled)),
        cancelled(states).len() == states.len(),
        forall|i: int|
            0 <= i < states.len() ==> (#[trigger] cancelled(states)[i]) == (if states[i]
                == ReservationCode::Known(StripReservationState::Reserved) {
                ReservationCode::Known(StripReservationState::Cancelled)
            } else {
                states[i]
            }),
        crate::lifecycle::reservation::all_settled(states) <==> forall|i: int|
            0 <= i < states.len() ==> (#[trigger] states[i]) == ReservationCode::Known(
                StripReservationState::Confirmed,
            ) || states[i] == ReservationCode::Known(StripReservationState::Cancelled),
{
    lemma_unconsumed(strips, states, s);
    if crate::lifecycle::reservation::all_settled(states) {
        assert forall|i: int| 0 <= i < states.len() implies (#[trigger] states[i])
            == ReservationCode::Known(StripReservationState::Confirmed) || states[i]
            == ReservationCode::Known(StripReservationState::Cancelled) by {
            assert(settled(states[i]));
        }
    }
}

proof fn lemma_unconsumed(strips: Seq<StripModel>, states: Seq<ReservationCode>, s: StripModel)
    requires
        strips.len() <= states.len(),
    ensures
        unconsumed(strips, states).contains(s) <==> exists|i: int|
            0 <= i < strips.len() && (#[trigger] strips[i]) == s && (states[i]
                == ReservationCode::Known(StripReservationState::Reserved) || states[i]
                == ReservationCode::Known(StripReservationState::Cancelled)),
    decreases strips.len(),
{
    if strips.len() > 0 {
        let front = strips.drop_last();
        let n = strips.len() - 1;
        let before = unconsumed(front, states);
        let all = unconsumed(strips, states);
        lemma_unconsumed(front, states, s);
        assert(strips[n] == strips.last());
        if all.contains(s) {
            let k = choose|k: int| 0 <= k < all.len() && all[k] == s;
            if k < before.len() {
                assert(before[k] == s);
                let i = choose|i: int|
                    0 <= i < front.len() && (#[trigger] front[i]) == s && (states[i]
                        == ReservationCode::Known(StripReservationState::Reserved) || states[i]
                        == ReservationCode::Known(StripReservationState::Cancelled));
                assert(strips[i] == s);
            }
        }
        if exists|i: int|
            0 <= i < strips.len() && (#[trigger] strips[i]) == s && (states[i]
                == ReservationCode::Known(StripReservationState::Reserved) || states[i]
                == ReservationCode::Known(StripReservationState::Cancelled)) {
            let i = choose|i: int|
                0 <= i < strips.len() && (#[trigger] strips[i]) == s && (states[i]
                    == ReservationCode::Known(StripReservationState::Reserved) || states[i]
                    == ReservationCode::Known(StripReservationState::Cancelled));
            if i < n {
                assert(front[i] == s);
                let k = choose|k: int| 0 <= k < before.len() && before[k] == s;
                assert(all[k] == s);
            } else {
                assert(all[all.len() - 1] == s);
            }
        }
    }
}

} // verus!
