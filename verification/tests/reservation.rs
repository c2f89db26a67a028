//! Reserved strips, their records, the lock map and the admission of reservations.
use crowdb_chunkdb::allocator::pool::DiskdbClientPool;
use crowdb_chunkdb::lifecycle::admission::ReservationAdmission;
use crowdb_chunkdb::lifecycle::error::LifecycleError;
use crowdb_chunkdb::lifecycle::handler::{CacheHint, LifecycleHandler, LockPolicy};
use crowdb_chunkdb::lifecycle::lock_map::ChunkLockMap;
use crowdb_chunkdb::lifecycle::reservation::{
    reclaim_unconsumed_reservations, validate_reserve_spec, FailedPersist, MutationStep,
    ReservationCode, ReservationFence, ReservationUpdate, ReservePlan, ReserveGroupSpec,
    StripReservationAction, StripReservationGroup, StripReservationState,
};
use crowdb_chunkdb::lifecycle::survivors::select_conversion_survivors;
use crowdb_chunkdb::metrics::LatencySummary;
use crowdb_chunkdb::routing::{default_binding_table, BindingCache, BindingTable, BucketBinding, MigrationState};
use crowdb_chunkdb::storage::keys::{
    all_reservations_prefix, chunk_key, chunk_prefix, reservation_key, reservation_prefix,
};
use crowdb_chunkdb::storage::reservation::{
    complete_group, fence_write, merge_reservation_groups, put_chunk_and_finish_reservation,
    put_chunk_and_reservation, settle_fenced_write, undecodable_group, upgrade_group, BatchOp,
    FencedWrite, LegacyStripReservationGroup,
};
use crowdb_chunkdb::storage::{ChunkStore, ReadStep, StoreError};
use crowdb_chunkdb::topology::cache::{assemble_snapshot, DiskRecord};
use crowdb_chunkdb::topology::{
    DiskGroupEntry, DiskGroupValue, HwStatus, NodeRow, RackRow, TopologySnapshot,
};
use crowdb_chunkdb::types::{
    Chunk, ChunkId, ChunkStrip, ChunkType, DiskId, EcState, FailureDomainPriority, MirrorStrip,
    Segment, Strip, StripType,
};

const ID: ChunkId = ChunkId { high: 1, low: 2 };
const GROUP: ChunkId = ChunkId { high: 3, low: 4 };

fn disk(n: u64) -> DiskId {
    DiskId { high: 0, low: n }
}

fn segment(disk_number: u64, offset: u64) -> Segment {
    Segment {
        disk_id: Some(disk(disk_number)),
        owner_chunk: Some(ID),
        zone_index: 0,
        unit_offset: offset,
        unit_count: 4,
        allocation_ts: 1,
    }
}

fn mirror(sequence: u32, disks: [u64; 2]) -> ChunkStrip {
    let at = u64::from(sequence) * 10;
    ChunkStrip {
        chunk_offset: 0,
        strip_sequence: sequence,
        unit_kb: 1,
        capacity: 4,
        create_ts_ms: 1,
        sealed_ts_ms: 0,
        sealed_length: 0,
        strip_type: StripType::Mirror,
        strip: Some(Strip::MirrorStrip(MirrorStrip {
            segments: vec![segment(disks[0], at), segment(disks[1], at)],
        })),
        usage_bitmap: Vec::new(),
        unavailable_segments: Vec::new(),
        placement_repair_required: false,
        placement_assessment: None,
        placement_priority: FailureDomainPriority::RackFirst,
    }
}

fn chunk() -> Chunk {
    LifecycleHandler::new()
        .allocate_chunk(ID, 0, vec![mirror(0, [1, 2])], 1, ChunkType::Repo, 5, 100, 1_000)
        .unwrap()
}

fn group_row(n: u64) -> DiskGroupEntry {
    DiskGroupEntry {
        rack_id: n,
        node_id: n,
        dg_id: n,
        value: DiskGroupValue { status: HwStatus::Up, disk_ids: vec![disk(n)] },
    }
}

fn snapshot() -> TopologySnapshot {
    let mut racks = Vec::new();
    let mut nodes = Vec::new();
    let mut groups = Vec::new();
    let mut disks = Vec::new();
    for n in 1..=5u64 {
        racks.push(RackRow { rack_id: n, status: HwStatus::Up, node_ids: vec![n] });
        nodes.push(NodeRow { rack_id: n, node_id: n, status: HwStatus::Up, dg_ids: vec![n] });
        groups.push(group_row(n));
        disks.push(DiskRecord {
            disk_id: disk(n),
            rack_id: n,
            node_id: n,
            disk_group_id: n,
            status: HwStatus::Up,
            unit_size_bytes: 1024,
        });
    }
    assemble_snapshot(racks, nodes, groups, &disks, &[]).unwrap()
}

fn pool() -> DiskdbClientPool {
    let mut pool = DiskdbClientPool::new();
    let groups: Vec<DiskGroupEntry> = (1..=5u64).map(group_row).collect();
    pool.update_disk_id_lookup(&groups);
    pool
}

const FENCE: ReservationFence =
    ReservationFence { expected_modify_ts: 1, writer_epoch: 5, lease_generation: 1, lease_ms: 100 };
const SPEC: ReserveGroupSpec = ReserveGroupSpec {
    strip_size: 4,
    strip_count: 2,
    copy_count: 2,
    conversion_data_num: 2,
    conversion_code_num: 1,
};

fn reserved() -> (Chunk, StripReservationGroup) {
    LifecycleHandler::reserve_strip_group(
        &chunk(),
        &ID,
        &GROUP,
        FENCE,
        SPEC,
        vec![mirror(1, [1, 2]), mirror(2, [3, 4])],
        vec![segment(5, 99)],
        vec![0, 0],
        2_000,
    )
    .unwrap()
}

fn update(sequence: u32, action: StripReservationAction) -> ReservationUpdate {
    ReservationUpdate {
        strip_sequence: sequence,
        action,
        acknowledged_cursor: 0,
        closed_strip_sequence: None,
    }
}

fn handler() -> LifecycleHandler {
    LifecycleHandler::new().with_locks().with_layout_validity(500)
}

fn mutate(
    chunk: &Chunk,
    group: Option<StripReservationGroup>,
    fence: ReservationFence,
    change: ReservationUpdate,
    now_ms: u64,
) -> Result<MutationStep, LifecycleError> {
    handler().mutate_strip_reservation(
        &snapshot(),
        &pool(),
        chunk,
        &GROUP,
        0,
        group,
        fence,
        change,
        now_ms,
    )
}

#[test]
fn reservation_needs_a_fence_and_a_geometry() {
    assert!(validate_reserve_spec(FENCE, SPEC).is_ok());
    let error = validate_reserve_spec(ReservationFence { lease_ms: 0, ..FENCE }, SPEC).unwrap_err();
    assert!(error.message().contains("reservation fence and geometry must be nonzero"));
    assert!(validate_reserve_spec(FENCE, ReserveGroupSpec { copy_count: 0, ..SPEC }).is_err());
}

#[test]
fn reservation_plan_follows_the_spec() {
    match handler().plan_reservation(&chunk(), None, &ID, &GROUP, 0, FENCE, SPEC).unwrap() {
        ReservePlan::Conversion { unit_count, start_sequence, data_num, code_num, copy_count } => {
            assert_eq!((unit_count, start_sequence), (4, 1));
            assert_eq!((data_num, code_num, copy_count), (2, 1, 2));
        }
        _ => panic!("conversion reservation"),
    }
    let plain = ReserveGroupSpec { conversion_data_num: 0, conversion_code_num: 0, ..SPEC };
    assert!(matches!(
        handler().plan_reservation(&chunk(), None, &ID, &GROUP, 0, FENCE, plain).unwrap(),
        ReservePlan::Mirrors(_)
    ));
    let uneven = ReserveGroupSpec { conversion_data_num: 3, ..SPEC };
    assert!(handler()
        .plan_reservation(&chunk(), None, &ID, &GROUP, 0, FENCE, uneven)
        .unwrap_err()
        .message()
        .contains("conversion reservation geometry must match its data width"));
    assert!(LifecycleHandler::new()
        .plan_reservation(&chunk(), None, &ID, &GROUP, 0, FENCE, SPEC)
        .unwrap_err()
        .message()
        .contains("strip reservations require lifecycle locking"));
    let stale = ReservationFence { expected_modify_ts: 9, ..FENCE };
    assert!(matches!(
        handler().plan_reservation(&chunk(), None, &ID, &GROUP, 0, stale, SPEC),
        Err(LifecycleError::StateConflict)
    ));
}

#[test]
fn repeated_reservation_is_answered_from_its_record() {
    let (next, group) = reserved();
    assert!(matches!(
        handler().plan_reservation(&next, Some(&group), &ID, &GROUP, 0, FENCE, SPEC).unwrap(),
        ReservePlan::Existing
    ));
    let other = ReserveGroupSpec { copy_count: 1, ..SPEC };
    assert!(handler()
        .plan_reservation(&next, Some(&group), &ID, &GROUP, 0, FENCE, other)
        .is_err());
}

#[test]
fn reserved_strips_take_their_sequences() {
    let (next, group) = reserved();
    assert_eq!(next.next_strip_sequence, 3);
    assert_eq!(next.modify_ts, 2);
    assert_eq!(next.writer_lease_deadline_ms, 2_100);
    assert_eq!(next.strips.len(), 1);
    assert_eq!(group.strips[0].chunk_offset, 4);
    assert_eq!(group.strips[1].chunk_offset, 8);
    assert_eq!(group.lease_deadline_ms, 2_100);
    assert_eq!(
        group.states,
        vec![ReservationCode::Known(StripReservationState::Reserved); 2]
    );
}

#[test]
fn lost_write_is_settled_by_a_read() {
    let (_, group) = reserved();
    assert!(matches!(
        LifecycleHandler::after_failed_persist(Ok(Some(group)), &ID, &GROUP, FENCE, SPEC),
        Ok(FailedPersist::Adopt(_))
    ));
    assert!(matches!(
        LifecycleHandler::after_failed_persist(Ok(None), &ID, &GROUP, FENCE, SPEC),
        Ok(FailedPersist::RollBack)
    ));
    assert!(matches!(
        LifecycleHandler::after_failed_persist(
            Err(StoreError::Conflict),
            &ID,
            &GROUP,
            FENCE,
            SPEC
        ),
        Ok(FailedPersist::Retain)
    ));
}

#[test]
fn reservation_moves_from_reserved_to_published() {
    let (mut current, mut group) = reserved();
    let mut cursor = 0;
    for sequence in [1u32, 2] {
        group = match mutate(
            &current,
            Some(group),
            FENCE,
            update(sequence, StripReservationAction::Consume),
            2_001,
        )
        .unwrap()
        {
            MutationStep::PutGroup(group) => group,
            _ => panic!("a reserved strip is consumed"),
        };
        cursor += 4_096;
        let change = ReservationUpdate {
            strip_sequence: sequence,
            action: StripReservationAction::Confirm,
            acknowledged_cursor: cursor + 4_096,
            closed_strip_sequence: Some(sequence),
        };
        let fence = ReservationFence { expected_modify_ts: current.modify_ts, ..FENCE };
        match mutate(&current, Some(group), fence, change, 2_002).unwrap() {
            MutationStep::Confirm { chunk, group: next, strip } => {
                assert_eq!(strip.strip_sequence, sequence);
                assert_eq!(chunk.capacity, current.capacity + 4);
                assert_eq!(chunk.acknowledged_cursor, cursor + 4_096);
                current = chunk;
                group = next;
            }
            _ => panic!("a consumed strip is confirmed"),
        }
    }
    let fence = ReservationFence { expected_modify_ts: current.modify_ts, ..FENCE };
    let publish = update(1, StripReservationAction::Publish);
    match mutate(&current, Some(group), fence, publish, 3_000).unwrap() {
        MutationStep::Publish { chunk, commit } => {
            assert_eq!(commit, vec![segment(5, 99)]);
            assert_eq!(chunk.strips.len(), 2);
            assert_eq!(chunk.capacity, 12);
            assert_eq!(chunk.last_strip_replacement, Some(GROUP));
            match &chunk.strips[1].strip {
                Some(Strip::EcStrip(body)) => {
                    assert_eq!(body.ec_state, EcState::Parity);
                    assert_eq!(body.segments.len(), 3);
                    assert_eq!(body.segments[2], segment(5, 99));
                }
                _ => panic!("the group is erasure-coded now"),
            }
            assert_eq!(chunk.cleanup_intents[0].retired_segments.len(), 2);
            assert_eq!(chunk.cleanup_intents[0].not_before_ms, 3_500);
            match mutate(&chunk, None, fence, publish, 4_000).unwrap() {
                MutationStep::Answer(None) => {}
                _ => panic!("a repeated publication changes nothing"),
            }
        }
        _ => panic!("a confirmed group is published"),
    }
}

#[test]
fn reservation_is_fenced() {
    let (current, group) = reserved();
    let consume = update(1, StripReservationAction::Consume);
    assert!(matches!(
        mutate(&current, Some(group.clone()), ReservationFence { lease_generation: 2, ..FENCE }, consume, 1),
        Err(LifecycleError::StateConflict)
    ));
    assert!(matches!(
        mutate(&current, Some(group.clone()), FENCE, consume, 2_101),
        Err(LifecycleError::StateConflict)
    ));
    assert!(matches!(
        mutate(&current, None, FENCE, consume, 1),
        Err(LifecycleError::StateConflict)
    ));
    assert!(matches!(
        mutate(&current, Some(group.clone()), FENCE, update(9, StripReservationAction::Consume), 1),
        Err(LifecycleError::StripIndexOutOfRange { index: 9, len: 2 })
    ));
    assert!(matches!(
        mutate(&current, Some(group.clone()), FENCE, update(1, StripReservationAction::Confirm), 1),
        Err(LifecycleError::StateConflict)
    ));
    let mut unknown = group.clone();
    unknown.states[0] = ReservationCode::Unknown(77);
    assert!(mutate(&current, Some(unknown), FENCE, consume, 1)
        .unwrap_err()
        .message()
        .contains("invalid reservation state"));
    let mut short = group;
    short.states.pop();
    assert!(mutate(&current, Some(short), FENCE, consume, 1)
        .unwrap_err()
        .message()
        .contains("reservation state and strip counts differ"));
}

#[test]
fn cancelled_and_renewed_reservations() {
    let (current, group) = reserved();
    match mutate(&current, Some(group.clone()), FENCE, update(1, StripReservationAction::Cancel), 9_999)
        .unwrap()
    {
        MutationStep::Cancel { group: next, changed, rollback } => {
            assert!(changed);
            assert_eq!(rollback.strip_sequence, 1);
            match mutate(&current, Some(next), FENCE, update(1, StripReservationAction::Cancel), 9_999)
                .unwrap()
            {
                MutationStep::Cancel { changed, .. } => assert!(!changed),
                _ => panic!("cancelling twice frees twice"),
            }
        }
        _ => panic!("a reserved strip is cancelled"),
    }
    match mutate(&current, Some(group), FENCE, update(1, StripReservationAction::Renew), 2_050).unwrap() {
        MutationStep::PutGroup(next) => {
            assert_eq!(next.lease_generation, 2);
            assert_eq!(next.lease_deadline_ms, 2_150);
        }
        _ => panic!("a live reservation is renewed"),
    }
}

#[test]
fn unconsumed_strips_are_reclaimed() {
    let (_, mut group) = reserved();
    group.states[1] = ReservationCode::Known(StripReservationState::Confirmed);
    let plan = reclaim_unconsumed_reservations(group).unwrap();
    assert_eq!(plan.rollback.len(), 1);
    assert_eq!(plan.rollback[0].strip_sequence, 1);
    assert!(plan.finished);
    let (_, mut busy) = reserved();
    busy.states[1] = ReservationCode::Known(StripReservationState::Consumed);
    assert!(!reclaim_unconsumed_reservations(busy).unwrap().finished);
}

#[test]
fn survivors_stay_apart() {
    let strips = vec![mirror(1, [1, 2]), mirror(2, [1, 3])];
    let survivors =
        select_conversion_survivors(&snapshot(), &pool(), &strips, &[segment(5, 99)], 2, 1, false)
            .unwrap();
    assert_eq!(survivors.len(), 2);
    assert_ne!(survivors[0].disk_id, survivors[1].disk_id);
    let crowded = vec![mirror(1, [1, 1]), mirror(2, [1, 1])];
    assert!(select_conversion_survivors(
        &snapshot(),
        &pool(),
        &crowded,
        &[segment(5, 99)],
        2,
        1,
        false
    )
    .is_err());
}

#[test]
fn keys_are_ordered_by_identity() {
    assert_eq!(chunk_prefix(), b"/chunk/".to_vec());
    assert_eq!(all_reservations_prefix(), b"/reservation/".to_vec());
    let mut expected = b"/chunk/".to_vec();
    expected.extend_from_slice(&1u64.to_be_bytes());
    expected.extend_from_slice(&2u64.to_be_bytes());
    assert_eq!(chunk_key(&ID), expected);
    let key = reservation_key(&ID, &GROUP);
    assert!(key.starts_with(&reservation_prefix(&ID)));
    assert_eq!(key.len(), 13 + 32);
    assert_ne!(chunk_key(&ID), chunk_key(&GROUP));
    assert_ne!(reservation_key(&ID, &GROUP), reservation_key(&GROUP, &ID));
}

#[test]
fn chunk_and_reservation_are_written_together() {
    let (next, group) = reserved();
    let ops = put_chunk_and_reservation(&next, vec![1], &group, vec![2]).unwrap();
    assert_eq!(ops.len(), 2);
    match &ops[0] {
        BatchOp::Put { key, value } => {
            assert_eq!(key, &chunk_key(&ID));
            assert_eq!(value, &vec![1]);
        }
        BatchOp::Delete { .. } => panic!("the chunk is written"),
    }
    let ops = put_chunk_and_finish_reservation(&next, vec![1], None, &GROUP).unwrap();
    match &ops[1] {
        BatchOp::Delete { key } => assert_eq!(key, &reservation_key(&ID, &GROUP)),
        BatchOp::Put { .. } => panic!("the reservation is done"),
    }
    let mut nameless = next;
    nameless.id = None;
    assert!(put_chunk_and_reservation(&nameless, vec![1], &group, vec![2]).is_err());
}

#[test]
fn writes_follow_the_stored_revision() {
    let chunk = chunk();
    let mut next = chunk.clone();
    next.modify_ts = 2;
    assert!(matches!(fence_write(None, &chunk), Ok(FencedWrite::Compare(0))));
    assert!(matches!(fence_write(Some((chunk.clone(), 7)), &next), Ok(FencedWrite::Compare(7))));
    assert!(matches!(fence_write(Some((next.clone(), 7)), &next), Ok(FencedWrite::Done)));
    assert!(matches!(fence_write(Some((next.clone(), 7)), &chunk), Err(StoreError::Conflict)));
    assert!(settle_fenced_write(Some(next.clone()), &next).is_ok());
    assert!(matches!(settle_fenced_write(Some(chunk), &next), Err(StoreError::Conflict)));
}

#[test]
fn old_records_are_completed() {
    let (_, group) = reserved();
    let legacy = LegacyStripReservationGroup {
        group_id: group.group_id,
        chunk_id: group.chunk_id,
        writer_epoch: group.writer_epoch,
        lease_generation: group.lease_generation,
        lease_deadline_ms: group.lease_deadline_ms,
        placement_epoch: group.placement_epoch,
        strips: group.strips.clone(),
        states: group.states.clone(),
        parity_segments: group.parity_segments.clone(),
        preferred_survivors: group.preferred_survivors.clone(),
        data_num: group.data_num,
        code_num: group.code_num,
    };
    let upgraded = upgrade_group(legacy);
    assert_eq!(upgraded.planned_cursors, vec![0, 0]);
    assert_eq!(upgraded.planned_closed_sequences, vec![u32::MAX, u32::MAX]);
    let mut bare = group;
    bare.planned_cursors = Vec::new();
    bare.planned_closed_sequences = vec![1, 2];
    let complete = complete_group(bare);
    assert_eq!(complete.planned_cursors, vec![0, 0]);
    assert_eq!(complete.planned_closed_sequences, vec![1, 2]);
    assert_eq!(
        undecodable_group("a", "b").message(),
        "serialization error: reservation decode failed: current=a; legacy=b"
    );
}

#[test]
fn found_groups_are_merged_in_order() {
    let (_, first) = reserved();
    let mut second = first.clone();
    second.group_id = Some(ChunkId { high: 1, low: 1 });
    let merged = merge_reservation_groups(vec![first.clone(), second, first], 10);
    assert_eq!(merged.len(), 2);
    assert_eq!(merged[0].group_id, Some(ChunkId { high: 1, low: 1 }));
    assert_eq!(merged[1].group_id, Some(GROUP));
    let (_, one) = reserved();
    let (_, two) = reserved();
    assert_eq!(merge_reservation_groups(vec![one, two], 1).len(), 1);
}

#[test]
fn store_reads_the_old_group_while_a_range_moves() {
    let mut bindings = BindingCache::new();
    bindings.replace(BindingTable::new(vec![BucketBinding {
        start: 0,
        end: 10,
        kv_store_id: 1,
        kv_group_id: 2,
        old_kv_store_id: Some(3),
        old_kv_group_id: Some(4),
        migration_state: MigrationState::Copying,
    }]));
    let store = ChunkStore::new(bindings);
    let targets = store.targets(5).unwrap();
    assert_eq!((targets.primary.kv_store_id, targets.primary.kv_group_id), (1, 2));
    assert!(matches!(ChunkStore::after_primary_read(&targets, true), ReadStep::Decode));
    match ChunkStore::after_primary_read(&targets, false) {
        ReadStep::TryOld(old) => assert_eq!((old.kv_store_id, old.kv_group_id), (3, 4)),
        _ => panic!("the old group may still hold it"),
    }
    let mut settled = BindingCache::new();
    settled.replace(default_binding_table(1, 2));
    let store = ChunkStore::new(settled);
    let targets = store.targets(5).unwrap();
    assert!(matches!(ChunkStore::after_primary_read(&targets, false), ReadStep::NotFound));
    assert_eq!(store.scan_targets().unwrap(), vec![(1, 2)]);
    assert!(ChunkStore::new(BindingCache::new()).targets(5).is_err());
}

#[test]
fn lock_map_serves_what_it_was_given() {
    let mut locks = ChunkLockMap::new(100, 1_000);
    assert!(locks.acquire(&ID, CacheHint::Cache).is_none());
    let guard = locks.admit_loaded(&ID, CacheHint::Cache, Ok(chunk())).unwrap();
    assert!(guard.chunk().unwrap().same(&chunk()));
    let served = locks.acquire(&ID, CacheHint::Cache).unwrap();
    assert!(served.chunk().unwrap().same(&chunk()));
    assert_eq!(locks.cache_len(), 1);
    assert_eq!(locks.cached_ids(), vec![ID]);
    let mut guard = ChunkLockMap::acquire_for_create(&GROUP, CacheHint::NoCache);
    assert!(guard.chunk().is_none());
    guard.refresh(&mut locks, chunk());
    assert!(guard.chunk().is_some());
    assert!(locks.acquire(&GROUP, CacheHint::Cache).is_none());
    assert!(locks.invalidate_chunk(&ID));
    assert!(!locks.invalidate_chunk(&ID));
    assert!(locks.acquire(&ID, CacheHint::Cache).is_none());
    let none = LatencySummary { count: 0, p50_us: 0, p99_us: 0, max_us: 0 };
    let snapshot = locks.metrics_snapshot(none, none);
    assert_eq!((snapshot.cache_hit_count, snapshot.cache_miss_count), (1, 3));
    assert_eq!(snapshot.invalidate_count, 1);
}

#[test]
fn bypassed_cache_is_neither_read_nor_written() {
    let mut locks = ChunkLockMap::new(100, 1_000);
    locks.populate_cache(&ID, chunk());
    assert!(locks.acquire(&ID, CacheHint::NoCache).is_none());
    let mut newer = chunk();
    newer.modify_ts = 77;
    let guard = locks.admit_loaded(&ID, CacheHint::NoCache, Ok(newer)).unwrap();
    assert_eq!(guard.chunk().unwrap().modify_ts, 77);
    assert_eq!(locks.acquire(&ID, CacheHint::Cache).unwrap().chunk().unwrap().modify_ts, 1);
}

#[test]
fn newer_record_replaces_the_cached_one() {
    let mut locks = ChunkLockMap::new(2, 1_000);
    for id in [ID, GROUP] {
        locks.populate_cache(&id, chunk());
    }
    assert_eq!(locks.cache_len(), 2);
    let mut newer = chunk();
    newer.modify_ts = 9;
    locks.populate_cache(&ID, newer);
    assert_eq!(locks.cache_len(), 2);
    assert_eq!(locks.acquire(&ID, CacheHint::Cache).unwrap().chunk().unwrap().modify_ts, 9);
    assert!(locks.acquire(&GROUP, CacheHint::Cache).is_some());
}

#[test]
fn few_records_are_all_kept() {
    let mut locks = ChunkLockMap::new(1_000, 1_000);
    for low in 0..32u64 {
        locks.populate_cache(&ChunkId { high: 3, low }, chunk());
    }
    assert_eq!(locks.cache_len(), 32);
}

#[test]
fn stored_reservation_is_found_again() {
    let (mut stored, group) = reserved();
    stored.modify_ts += 5;
    let plan = handler().plan_reservation(&stored, Some(&group), &ID, &GROUP, 0, FENCE, SPEC);
    assert!(matches!(plan, Ok(ReservePlan::Existing)));
}

#[test]
fn missing_record_is_not_found() {
    let mut locks = ChunkLockMap::new(10, 1_000);
    assert!(matches!(
        locks.admit_loaded(&ID, CacheHint::Cache, Err(StoreError::ChunkNotFound)),
        Err(LifecycleError::ChunkNotFound)
    ));
    assert!(matches!(
        locks.admit_loaded(&ID, CacheHint::Cache, Err(StoreError::Conflict)),
        Err(LifecycleError::Storage(StoreError::Conflict))
    ));
}

#[test]
fn ranges_are_invalidated() {
    let mut locks = ChunkLockMap::new(10, 1_000);
    locks.populate_cache(&ID, chunk());
    locks.populate_cache(&GROUP, chunk());
    assert_eq!(locks.invalidate_range(&[(ID, 5), (GROUP, 50)], 0, 10), 1);
    assert_eq!(locks.cached_ids(), vec![GROUP]);
}

#[test]
fn busy_locks_are_counted() {
    let mut locks = ChunkLockMap::new(10, 1_000);
    assert!(locks.acquire_lock(LockPolicy::TryLock, true).is_ok());
    assert!(matches!(
        locks.acquire_lock(LockPolicy::TryLock, false),
        Err(LifecycleError::LockBusy)
    ));
    assert!(matches!(
        locks.acquire_lock(LockPolicy::Wait(5), false),
        Err(LifecycleError::LockTimeout)
    ));
    assert!(locks.held_too_long(1_001));
    assert!(!locks.held_too_long(1_000));
}

#[test]
fn admission_keeps_to_its_limits() {
    let mut admission = ReservationAdmission::new(10, 100);
    let permit = admission.try_acquire(6, 60).unwrap();
    assert!(admission.try_acquire(5, 1).is_none());
    assert!(admission.try_acquire(1, 50).is_none());
    assert_eq!(admission.rejections, 2);
    assert_eq!(admission.usage(), (6, 60));
    admission.settle(permit, false);
    assert_eq!(admission.usage(), (0, 0));
    let permit = admission.try_acquire(6, 60).unwrap();
    admission.settle(permit, true);
    assert_eq!(admission.usage(), (6, 60));
    admission.release(7, 10);
    assert_eq!(admission.usage(), (0, 50));
    admission.rebuild(3, 4);
    admission.update_limits(3, 4);
    assert!(admission.try_acquire(1, 0).is_none());
}
