//! Policies, counters and small operations of the service.
use crowdb_chunkdb::allocator::pool::DiskdbClientPool;
use crowdb_chunkdb::allocator::strips::ChunkAllocator;
use crowdb_chunkdb::allocator::AllocError;
use crowdb_chunkdb::conversion::attempt::MirrorToEcTaskHandler;
use crowdb_chunkdb::conversion::coordinator::ConversionCoordinator;
use crowdb_chunkdb::lifecycle::lock_map::ChunkLockMap;
use crowdb_chunkdb::lifecycle::reservation::StripReservationGroup;
use crowdb_chunkdb::lifecycle::{LifecycleError, LifecycleHandler};
use crowdb_chunkdb::metrics::{LatencySummary, RequestKind};
use crowdb_chunkdb::placement_rebalance::{PlacementRebalanceConfig, PlacementRebalancePlanner};
use crowdb_chunkdb::routing::{BindingCache, BindingTable, BucketBinding, MigrationState};
use crowdb_chunkdb::selector::{PlacementConstraints, PlacementError};
use crowdb_chunkdb::storage::keys::reservation_key;
use crowdb_chunkdb::storage::reservation::{
    delete_reservation_group, put_reservation_group, BatchOp,
};
use crowdb_chunkdb::storage::StoreError;
use crowdb_chunkdb::task::{ChunkTaskState, ChunkTaskValue, TaskKind};
use crowdb_chunkdb::topology::cache::{assemble_snapshot, DiskRecord};
use crowdb_chunkdb::topology::{
    DiskGroupEntry, DiskGroupValue, HwStatus, NodeRow, RackRow, TopologyCache, TopologySnapshot,
};
use crowdb_chunkdb::types::{
    capacity_fits, Chunk, ChunkId, ChunkState, ChunkStrip, ChunkType, DiskId,
    FailureDomainPriority, Segment, StripType,
};

const CHUNK: ChunkId = ChunkId { high: 1, low: 2 };
const GROUP: ChunkId = ChunkId { high: 3, low: 4 };

fn disk(n: u64) -> DiskId {
    DiskId { high: 9, low: n }
}

fn segment(n: u64) -> Segment {
    Segment {
        disk_id: Some(disk(n)),
        owner_chunk: Some(CHUNK),
        zone_index: 0,
        unit_offset: n,
        unit_count: 4,
        allocation_ts: 1,
    }
}

fn snapshot(nodes_up: u64) -> TopologySnapshot {
    let mut racks = Vec::new();
    let mut nodes = Vec::new();
    let mut groups = Vec::new();
    let mut disks = Vec::new();
    for n in 1..=nodes_up {
        racks.push(RackRow { rack_id: n, status: HwStatus::Up, node_ids: vec![n] });
        nodes.push(NodeRow { rack_id: n, node_id: n, status: HwStatus::Up, dg_ids: vec![n] });
        groups.push(DiskGroupEntry {
            rack_id: n,
            node_id: n,
            dg_id: n,
            value: DiskGroupValue { status: HwStatus::Up, disk_ids: vec![disk(n)] },
        });
        disks.push(DiskRecord {
            disk_id: disk(n),
            rack_id: n,
            node_id: n,
            disk_group_id: n,
            status: HwStatus::Up,
            unit_size_bytes: 1024,
        });
    }
    assemble_snapshot(racks, nodes, groups, &disks, &[]).unwrap()
}

fn strip(capacity: u32) -> ChunkStrip {
    ChunkStrip {
        chunk_offset: 0,
        strip_sequence: 0,
        unit_kb: 1,
        capacity,
        create_ts_ms: 0,
        sealed_ts_ms: 0,
        sealed_length: 0,
        strip_type: StripType::Mirror,
        strip: None,
        usage_bitmap: Vec::new(),
        unavailable_segments: Vec::new(),
        placement_repair_required: false,
        placement_assessment: None,
        placement_priority: FailureDomainPriority::RackFirst,
    }
}

fn chunk(id: ChunkId) -> Chunk {
    Chunk {
        id: Some(id),
        modify_ts: 1,
        state: ChunkState::Active,
        create_ts_ms: 0,
        sealed_ts_ms: 0,
        capacity: 0,
        sealed_length: 0,
        strips: Vec::new(),
        chunk_type: ChunkType::Repo,
        writer_epoch: 0,
        acknowledged_cursor: 0,
        closed_strip_sequence: None,
        writer_lease_deadline_ms: 0,
        next_strip_sequence: 0,
        cleanup_intents: Vec::new(),
        last_strip_replacement: None,
    }
}

#[test]
fn conversion_group_is_planned_with_its_mirrors() {
    let mut allocator = ChunkAllocator::new(DiskdbClientPool::new());
    let plan = allocator
        .plan_conversion_group(&snapshot(6), 2, 1, 2, &PlacementConstraints::new())
        .unwrap();
    assert_eq!(plan.entries.len(), 5);
    assert!(plan.safe_mode);
    assert_ne!(plan.entries[3].node_id, plan.entries[0].node_id);
    assert_ne!(plan.entries[4].node_id, plan.entries[1].node_id);
    assert_eq!(allocator.pool().dg_for_disk(&disk(6)), Some(6));
}

#[test]
fn conversion_group_without_copies_is_refused() {
    let mut allocator = ChunkAllocator::new(DiskdbClientPool::new());
    let refused =
        allocator.plan_conversion_group(&snapshot(6), 2, 1, 0, &PlacementConstraints::new());
    match refused {
        Err(AllocError::Placement(PlacementError::InvalidShape(reason))) => {
            assert_eq!(reason, "conversion mirror copy count must be nonzero")
        }
        other => panic!("{other:?}"),
    }
}

#[test]
fn claim_of_another_generation_is_stale() {
    let mine = ChunkTaskValue {
        schema_version: 1,
        task_id: GROUP,
        partition_id: CHUNK,
        kind: TaskKind::MirrorToEc,
        kind_version: 1,
        state: ChunkTaskState::Running,
        priority: 1,
        revision: 1,
        operation_id: GROUP,
        source_revision: 1,
        created_at_ms: 0,
        updated_at_ms: 0,
        eligible_at_ms: 0,
        attempt: 1,
        max_attempts: 2,
        estimated_queue_bytes: 0,
        claim_owner: 5,
        claim_generation: 6,
        claim_deadline_ms: 9,
        last_error_code: 0,
        last_error: String::new(),
        payload: Vec::new(),
    };
    assert!(MirrorToEcTaskHandler::check_claim(Some(&mine), &mine).is_ok());
    assert!(MirrorToEcTaskHandler::check_claim(None, &mine).is_err());
    let mut later = mine.clone();
    later.claim_generation = 7;
    assert!(MirrorToEcTaskHandler::check_claim(Some(&later), &mine).is_err());
}

#[test]
fn conversion_policy_can_be_set() {
    let policy = ConversionCoordinator::new().with_policy(4, 2, 3, 10);
    assert_eq!(
        policy,
        ConversionCoordinator { data_num: 4, code_num: 2, min_mirror_strips: 3, min_age_ms: 10 }
    );
}

#[test]
fn replacement_keeps_away_from_survivors() {
    let handler = LifecycleHandler::new().with_allow_unsafe_ec(true);
    let constraints = handler
        .replacement_constraints(&snapshot(4), &CHUNK, 0, &segment(1), &[segment(2), segment(4)])
        .unwrap();
    assert!(constraints.is_node_excluded(2) && constraints.is_node_excluded(4));
    assert!(!constraints.is_node_excluded(1) && !constraints.is_node_excluded(3));
    assert!(constraints.allow_unsafe_ec);
    let foreign =
        handler.replacement_constraints(&snapshot(4), &GROUP, 0, &segment(1), &[]).unwrap_err();
    assert!(matches!(foreign, LifecycleError::InvalidRequest(_)));
}

#[test]
fn reaped_locks_are_counted() {
    let mut locks = ChunkLockMap::new(8, 1_000);
    locks.reap_idle(5, 2);
    locks.reap_idle(2, 3);
    let none = LatencySummary { count: 0, p50_us: 0, p99_us: 0, max_us: 0 };
    let counts = locks.metrics_snapshot(none, none);
    assert_eq!((counts.reap_idle_count, counts.reap_idle_entries_removed), (2, 3));
}

#[test]
fn request_metrics_have_names() {
    assert_eq!(RequestKind::SealChunk.metric_name("errors"), "request.seal_chunk.errors");
}

#[test]
fn rebalance_pages_through_the_chunks() {
    let policy = PlacementRebalanceConfig {
        imbalance_threshold_pct: 1,
        min_target_free_bytes: 0,
        hysteresis_secs: 0,
    };
    let mut planner = PlacementRebalancePlanner::new(policy);
    let mut page = Vec::new();
    for n in 0..256 {
        page.push(chunk(ChunkId { high: 0, low: n }));
    }
    planner.took_page(&page);
    assert_eq!(planner.scan_cursor, Some(ChunkId { high: 0, low: 255 }));
    planner.took_page(&page[..3]);
    assert_eq!(planner.scan_cursor, None);
}

#[test]
fn bindings_can_be_changed_in_place() {
    let binding = BucketBinding {
        start: 0,
        end: 10,
        kv_store_id: 1,
        kv_group_id: 2,
        old_kv_store_id: None,
        old_kv_group_id: None,
        migration_state: MigrationState::NotMigrating,
    };
    let mut table = BindingTable::new(vec![binding]);
    table.bindings_mut()[0].kv_group_id = 9;
    let mut cache = BindingCache::new();
    cache.replace(table);
    assert_eq!(cache.route_bucket(3).map(|found| found.kv_group_id), Some(9));
}

#[test]
fn placement_priority_can_be_chosen() {
    let constraints = PlacementConstraints::new()
        .with_failure_domain_priority(FailureDomainPriority::NodeFirst);
    assert_eq!(constraints.failure_domain_priority, FailureDomainPriority::NodeFirst);
}

#[test]
fn group_is_stored_and_deleted_under_its_key() {
    let mut group = StripReservationGroup {
        group_id: Some(GROUP),
        chunk_id: Some(CHUNK),
        writer_epoch: 1,
        lease_generation: 1,
        lease_deadline_ms: 1,
        placement_epoch: 1,
        strips: Vec::new(),
        states: Vec::new(),
        parity_segments: Vec::new(),
        preferred_survivors: Vec::new(),
        data_num: 0,
        code_num: 0,
        planned_cursors: Vec::new(),
        planned_closed_sequences: Vec::new(),
    };
    let expected = reservation_key(&CHUNK, &GROUP);
    match &put_reservation_group(&group, vec![7]).unwrap()[..] {
        [BatchOp::Put { key, value }] => assert_eq!((key, value), (&expected, &vec![7])),
        other => panic!("{other:?}"),
    }
    match &delete_reservation_group(&CHUNK, &GROUP)[..] {
        [BatchOp::Delete { key }] => assert_eq!(key, &expected),
        other => panic!("{other:?}"),
    }
    group.group_id = None;
    match put_reservation_group(&group, Vec::new()) {
        Err(StoreError::Serde(message)) => assert_eq!(message, "reservation group has no id"),
        other => panic!("{other:?}"),
    }
}

#[test]
fn rack_can_be_updated() {
    let mut cache = TopologyCache::new();
    cache.replace(snapshot(2));
    cache.update_rack(RackRow { rack_id: 7, status: HwStatus::Up, node_ids: vec![1] });
    assert!(cache.snapshot().rack_ids().contains(&7));
    assert_eq!(cache.snapshot().generation(), 2);
}

#[test]
fn capacities_must_be_countable() {
    assert!(capacity_fits(&[strip(u32::MAX), strip(0)]));
    assert!(!capacity_fits(&[strip(u32::MAX), strip(1)]));
}
