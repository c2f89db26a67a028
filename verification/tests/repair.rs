//! Repair of failed segments, moves of crowded fragments, and finalization.
use crowdb_chunkdb::ad_hoc::{
    answer_recovered, claim_index, count_joining, count_recovered, count_step, find_repair_task,
    identify, mark_segment, plan_recovery, AdHocEcRecoveryRequest, AdHocRecoveryShared, Disposition, RecoveryKey, RecoveryStep,
};
use crowdb_chunkdb::allocator::AllocError;
use crowdb_chunkdb::finalize::{
    failed, finalize_at, is_final, wait_for_writes, ChunkRead, FailedStep, Finalization,
    FinalizeTimings, FrameScan, ScanAction, ScanEvent,
};
use crowdb_chunkdb::lifecycle::error::LifecycleError;
use crowdb_chunkdb::lifecycle::handler::LifecycleHandler;
use crowdb_chunkdb::metrics::{AdHocCounts, RepairMetrics};
use crowdb_chunkdb::placement_rebalance::{
    segments_after_move, select_skewed_pair, weakens_strip, CycleStep, PendingMove,
    PlacementRebalanceConfig, PlacementRebalancePlanner,
};
use crowdb_chunkdb::placement_repair::attempt::{confirm_published_target, outcome, retire_target};
use crowdb_chunkdb::placement_repair::run::{
    AttemptAction, AttemptEvent, PlacementAttempt, PlacementRepairTaskHandler,
};
use crowdb_chunkdb::placement_repair::{
    admit_placement_chunk, over_budget_disks, over_budget_domains, payload_for_strip,
    placement_operation_id, placement_task_id, select_source, select_target_disk_group,
    topology_waiting, PlacementRepairError, PlacementRepairTaskPayload, RepairTargetCheckpoint,
    RepairTargetPhase,
};
use crowdb_chunkdb::repair::attempt::{
    segment_size, RepairRunError, RepairStripTaskHandler,
};
use crowdb_chunkdb::repair::run::{RepairAction, RepairAttempt, RepairEvent};
use crowdb_chunkdb::repair::{
    failure_operation_id, make_task, readmit, repair_operation_id, repair_task_id, sort_segments,
    RepairCoordinator, RepairStripTaskV1,
};
use crowdb_chunkdb::selector::PlacementError;
use crowdb_chunkdb::task::executor::TaskOutcome;
use crowdb_chunkdb::task::{ChunkTaskState, TaskKind, TaskVersions};
use crowdb_chunkdb::topology::cache::{assemble_snapshot, DiskRecord, UsageReport};
use crowdb_chunkdb::topology::{
    DiskGroupEntry, DiskGroupUsageSummary, DiskGroupValue, HwStatus, NodeRow, RackRow,
    TopologySnapshot,
};
use crowdb_chunkdb::types::{
    Chunk, ChunkId, ChunkState, ChunkStrip, ChunkType, DiskId, EcState, EcStrip,
    FailureDomainPriority, MirrorStrip, PlacementAssessment, Segment, Strip, StripType,
};

const ID: ChunkId = ChunkId { high: 1, low: 2 };
const OP: ChunkId = ChunkId { high: 9, low: 9 };

fn segment(disk: u64) -> Segment {
    Segment {
        disk_id: Some(DiskId { high: 0, low: disk }),
        owner_chunk: Some(ID),
        zone_index: 0,
        unit_offset: 0,
        unit_count: 4,
        allocation_ts: 1,
    }
}

fn strip(body: Strip, capacity: u32) -> ChunkStrip {
    let strip_type = match body {
        Strip::MirrorStrip(_) => StripType::Mirror,
        Strip::EcStrip(_) => StripType::Ec,
    };
    ChunkStrip {
        chunk_offset: 0,
        strip_sequence: 0,
        unit_kb: 1,
        capacity,
        create_ts_ms: 1,
        sealed_ts_ms: 0,
        sealed_length: 0,
        strip_type,
        strip: Some(body),
        usage_bitmap: Vec::new(),
        unavailable_segments: Vec::new(),
        placement_repair_required: false,
        placement_assessment: None,
        placement_priority: FailureDomainPriority::RackFirst,
    }
}

fn ec(disks: [u64; 3]) -> ChunkStrip {
    strip(
        Strip::EcStrip(EcStrip {
            data_num: 2,
            code_num: 1,
            ec_state: EcState::Parity,
            segments: disks.iter().map(|disk| segment(*disk)).collect(),
        }),
        8,
    )
}

fn mirror(disks: [u64; 2]) -> ChunkStrip {
    strip(
        Strip::MirrorStrip(MirrorStrip {
            segments: disks.iter().map(|disk| segment(*disk)).collect(),
        }),
        4,
    )
}

fn chunk(strips: Vec<ChunkStrip>) -> Chunk {
    let mut strips = strips;
    for (index, strip) in strips.iter_mut().enumerate() {
        strip.strip_sequence = index as u32;
    }
    let count = strips.len() as u32;
    LifecycleHandler::new()
        .allocate_chunk(ID, 0, strips, count, ChunkType::Repo, 0, 0, 1)
        .unwrap()
}

fn failing(mut strip: ChunkStrip, disks: &[u64]) -> ChunkStrip {
    strip.unavailable_segments = disks.iter().map(|disk| segment(*disk)).collect();
    strip
}

fn checkpoint(disks: &[u64]) -> RepairStripTaskV1 {
    RepairStripTaskV1 {
        chunk_id: ID,
        strip_sequence: 0,
        failed_segments: disks.iter().map(|disk| segment(*disk)).collect(),
    }
}

#[test]
fn marked_strips_are_repaired() {
    let plans =
        RepairCoordinator::admit_chunk(&chunk(vec![ec([1, 2, 3]), failing(ec([4, 5, 6]), &[6, 4, 6])]))
            .unwrap();
    assert_eq!(plans.len(), 1);
    assert_eq!(plans[0].payload.strip_sequence, 1);
    assert_eq!(plans[0].payload.failed_segments, vec![segment(4), segment(6)]);
    assert_eq!(plans[0].task_id, repair_task_id(1, &[segment(4), segment(6)]));
    assert_eq!(plans[0].estimated_bytes, 4 * 1024 * 5);
    let mut nameless = chunk(vec![ec([1, 2, 3])]);
    nameless.id = None;
    assert_eq!(
        RepairCoordinator::admit_chunk(&nameless).unwrap_err().message(),
        "repair task payload is invalid: chunk has no ID"
    );
    assert_eq!(sort_segments(&[segment(3), segment(1)]), vec![segment(1), segment(3)]);
    let other = Segment { unit_count: 9, ..segment(3) };
    assert_eq!(
        sort_segments(&[segment(3), segment(5), other, segment(1)]),
        vec![segment(1), segment(3), other, segment(5)]
    );
    assert_eq!(sort_segments(&[other, segment(3)]), vec![other, segment(3)]);
}

#[test]
fn repair_identities_differ() {
    let one = repair_task_id(0, &[segment(1)]);
    let two = repair_task_id(0, &[segment(2)]);
    assert_ne!(one, two);
    assert_ne!(repair_operation_id(ID, one), repair_operation_id(ID, two));
    assert_ne!(failure_operation_id(OP, 1), OP);
    assert_ne!(placement_task_id(ID, 1), placement_task_id(ID, 2));
    assert_ne!(placement_operation_id(ID, 1), placement_operation_id(ID, 2));
}

#[test]
fn ended_repairs_are_admitted_again() {
    let plan = RepairCoordinator::admit_chunk(&chunk(vec![failing(ec([1, 2, 3]), &[1])]))
        .unwrap()
        .remove(0);
    let versions = TaskVersions { schema: 1, payload: 1 };
    let fresh = || make_task(&plan, 5, vec![1], 100, versions);
    assert_eq!(fresh().kind, TaskKind::RepairStrip);
    let mut stored = fresh();
    assert!(readmit(Some(&stored), fresh()).is_none());
    stored.state = ChunkTaskState::Completed;
    stored.revision = 8;
    stored.claim_generation = 3;
    stored.created_at_ms = 7;
    let again = readmit(Some(&stored), fresh()).unwrap();
    assert_eq!((again.revision, again.claim_generation, again.created_at_ms), (9, 3, 7));
    assert_eq!(again.state, ChunkTaskState::Pending);
    assert!(readmit(None, fresh()).is_some());
}

#[test]
fn repair_fits_its_memory() {
    let chunk = chunk(vec![failing(ec([1, 2, 3]), &[2])]);
    let handler = RepairStripTaskHandler::new(1 << 20, 0, false);
    assert_eq!(handler.max_concurrency, 1);
    let plan = handler.plan_recovery(&chunk, &checkpoint(&[2])).unwrap().unwrap();
    assert_eq!(plan.shard_bytes, 4096);
    assert_eq!(plan.required, 4 * 4096);
    let small = RepairStripTaskHandler::new(4096, 1, false);
    assert_eq!(
        small.plan_recovery(&chunk, &checkpoint(&[2])).unwrap_err().message(),
        "repair requires 16384 bytes but the limit is 4096"
    );
    let mut other = checkpoint(&[2]);
    other.strip_sequence = 7;
    assert!(handler.plan_recovery(&chunk, &other).unwrap().is_none());
    assert!(segment_size(&segment(1), u64::MAX).is_err());
    assert_eq!(segment_size(&segment(1), 2).unwrap(), 8);
}

#[test]
fn erasure_coded_repair_runs_to_the_end() {
    let chunk = chunk(vec![failing(ec([1, 2, 3]), &[2])]);
    let handler = RepairStripTaskHandler::new(1 << 20, 1, true);
    let (mut attempt, first) = RepairAttempt::new(handler, OP, checkpoint(&[2]));
    assert!(matches!(first, RepairAction::Query(ID)));
    assert!(matches!(
        attempt.step(RepairEvent::Loaded(chunk)),
        RepairAction::Reserve(bytes) if bytes == 16384
    ));
    match attempt.step(RepairEvent::Performed) {
        RepairAction::Read { index, segment: read, unit_bytes } => {
            assert_eq!((index, read, unit_bytes), (0, segment(1), 1024));
        }
        _ => panic!("the first shard is read"),
    }
    match attempt.step(RepairEvent::Read(true)) {
        RepairAction::Read { index, segment: read, .. } => assert_eq!((index, read), (2, segment(3))),
        _ => panic!("the marked shard is skipped"),
    }
    assert!(matches!(
        attempt.step(RepairEvent::Read(true)),
        RepairAction::Decode { data_num: 2, code_num: 1 }
    ));
    match attempt.step(RepairEvent::Performed) {
        RepairAction::Allocate { failed, surviving, excluded, allow_unsafe, .. } => {
            assert_eq!(failed, segment(2));
            assert_eq!(surviving, vec![segment(1), segment(3)]);
            assert_eq!(excluded.len(), 3);
            assert!(allow_unsafe);
        }
        _ => panic!("a segment is allocated"),
    }
    match attempt.step(RepairEvent::Allocated(segment(9))) {
        RepairAction::Write { index, source, segment: fresh, .. } => {
            assert_eq!((index, source, fresh), (1, 1, segment(9)));
        }
        _ => panic!("the shard is written"),
    }
    match attempt.step(RepairEvent::Performed) {
        RepairAction::Replace(exchange) => {
            assert_eq!(exchange.operation_id, OP);
            assert_eq!(
                exchange.new_strip.extract_segments(),
                vec![segment(1), segment(9), segment(3)]
            );
            assert!(exchange.new_strip.unavailable_segments.is_empty());
        }
        _ => panic!("the repaired strip is published"),
    }
    match attempt.step(RepairEvent::Performed) {
        RepairAction::Finish(stats) => assert_eq!((stats.segments, stats.bytes), (1, 4096)),
        _ => panic!("the repair is done"),
    }
    assert!(matches!(attempt.step(RepairEvent::Performed), RepairAction::Ignore));
}

#[test]
fn unreadable_shards_are_marked_first() {
    let chunk = chunk(vec![failing(ec([1, 2, 3]), &[2])]);
    let handler = RepairStripTaskHandler::new(1 << 20, 1, false);
    let (mut attempt, _) = RepairAttempt::new(handler, OP, checkpoint(&[2]));
    attempt.step(RepairEvent::Loaded(chunk));
    attempt.step(RepairEvent::Performed);
    attempt.step(RepairEvent::Read(false));
    match attempt.step(RepairEvent::Read(true)) {
        RepairAction::Replace(exchange) => {
            assert_eq!(exchange.new_strip.unavailable_segments, vec![segment(1), segment(2)]);
            assert_eq!(exchange.operation_id, failure_operation_id(OP, 0));
        }
        _ => panic!("the failure is recorded"),
    }
    match attempt.step(RepairEvent::Performed) {
        RepairAction::Fail(error) => {
            assert_eq!(error.message(), "new failed segments were persisted")
        }
        _ => panic!("the repair is tried again"),
    }
}

#[test]
fn too_many_lost_shards_wait() {
    let chunk = chunk(vec![failing(ec([1, 2, 3]), &[2, 3])]);
    let handler = RepairStripTaskHandler::new(1 << 20, 1, false);
    let (mut attempt, _) = RepairAttempt::new(handler, OP, checkpoint(&[2, 3]));
    attempt.step(RepairEvent::Loaded(chunk));
    attempt.step(RepairEvent::Performed);
    match attempt.step(RepairEvent::Read(true)) {
        RepairAction::Fail(error) => assert_eq!(
            error.message(),
            "EC strip has 2 unavailable shards and 1 parity shards"
        ),
        _ => panic!("the strip cannot be decoded"),
    }
}

#[test]
fn mirror_is_copied_from_its_first_readable_copy() {
    let chunk = chunk(vec![failing(mirror([1, 2]), &[1])]);
    let handler = RepairStripTaskHandler::new(1 << 20, 1, false);
    let (mut attempt, _) = RepairAttempt::new(handler, OP, checkpoint(&[1]));
    attempt.step(RepairEvent::Loaded(chunk.clone()));
    match attempt.step(RepairEvent::Performed) {
        RepairAction::Read { segment: read, .. } => assert_eq!(read, segment(2)),
        _ => panic!("the other copy is read"),
    }
    assert!(matches!(attempt.step(RepairEvent::Read(true)), RepairAction::Allocate { .. }));
    match attempt.step(RepairEvent::Allocated(segment(9))) {
        RepairAction::Write { index, source, segment: fresh, .. } => {
            assert_eq!((index, source, fresh), (0, 1, segment(9)));
        }
        _ => panic!("the copy is written"),
    }
    let all_lost = failing(mirror([1, 2]), &[1, 2]);
    let mut lost = chunk;
    lost.strips = vec![all_lost];
    let (mut attempt, _) = RepairAttempt::new(handler, OP, checkpoint(&[1]));
    attempt.step(RepairEvent::Loaded(lost));
    match attempt.step(RepairEvent::Performed) {
        RepairAction::Fail(error) => assert_eq!(error.message(), "no readable mirror remains"),
        _ => panic!("nothing can be read"),
    }
}

#[test]
fn strip_without_parity_waits() {
    let mut open = failing(ec([1, 2, 3]), &[2]);
    if let Some(Strip::EcStrip(body)) = &mut open.strip {
        body.ec_state = EcState::NoParity;
    }
    let handler = RepairStripTaskHandler::new(1 << 20, 1, false);
    let (mut attempt, _) = RepairAttempt::new(handler, OP, checkpoint(&[2]));
    attempt.step(RepairEvent::Loaded(chunk(vec![open])));
    match attempt.step(RepairEvent::Performed) {
        RepairAction::Fail(error) => {
            assert!(matches!(error, RepairRunError::Retry(_)));
            assert_eq!(error.message(), "EC parity is incomplete");
        }
        _ => panic!("there is no parity yet"),
    }
    assert!(matches!(
        RepairStripTaskHandler::outcome(Err(RepairRunError::Permanent("x".to_string()))),
        TaskOutcome::Fail { error_code: 20, .. }
    ));
    assert!(matches!(
        RepairStripTaskHandler::stopped(),
        TaskOutcome::Retry { error_code: 22, delay_ms: 5_000, .. }
    ));
}

const GOOD: PlacementAssessment = PlacementAssessment {
    rack_protected: true,
    node_protected: true,
    disk_protected: true,
    max_fragments_per_rack: 1,
    max_fragments_per_node: 1,
    max_fragments_per_disk: 1,
    usage_fresh: true,
};

fn crowded() -> PlacementAssessment {
    PlacementAssessment { node_protected: false, max_fragments_per_node: 2, ..GOOD }
}

/// Four racks of one node; node 1 has two disk-groups with a disk each, 1 and 11.
fn snapshot() -> TopologySnapshot {
    let mut racks = Vec::new();
    let mut nodes = Vec::new();
    let mut groups = Vec::new();
    let mut disks = Vec::new();
    let mut reports = Vec::new();
    for (rack, dg) in [(1u64, 1u64), (1, 11), (2, 2), (3, 3), (4, 4)] {
        if dg < 10 {
            racks.push(RackRow { rack_id: rack, status: HwStatus::Up, node_ids: vec![rack] });
            nodes.push(NodeRow {
                rack_id: rack,
                node_id: rack,
                status: HwStatus::Up,
                dg_ids: vec![dg],
            });
        }
        let disk_id = DiskId { high: 0, low: dg };
        groups.push(DiskGroupEntry {
            rack_id: rack,
            node_id: rack,
            dg_id: dg,
            value: DiskGroupValue { status: HwStatus::Up, disk_ids: vec![disk_id] },
        });
        disks.push(DiskRecord {
            disk_id,
            rack_id: rack,
            node_id: rack,
            disk_group_id: dg,
            status: HwStatus::Up,
            unit_size_bytes: 1024,
        });
        let used = if dg == 1 { 900 } else { 100 * rack };
        reports.push(UsageReport {
            dg_id: dg,
            summary: DiskGroupUsageSummary {
                disk_group_id: dg,
                allocatable_disk_count: 1,
                allocatable_capacity_bytes: 1_000,
                allocatable_used_bytes: used,
                allocatable_free_bytes: 1_000 - used,
                sampled_at_ms: 1,
            },
        });
    }
    assemble_snapshot(racks, nodes, groups, &disks, &reports).unwrap()
}

fn marked() -> ChunkStrip {
    let mut strip = ec([1, 11, 2]);
    strip.placement_repair_required = true;
    strip.placement_assessment = Some(crowded());
    strip
}

fn placement_payload() -> PlacementRepairTaskPayload {
    payload_for_strip(ID, &marked()).unwrap()
}

#[test]
fn marked_placements_are_admitted() {
    let admission = admit_placement_chunk(&chunk(vec![ec([2, 3, 4]), marked()]));
    assert_eq!(admission.plans.len(), 1);
    assert_eq!(admission.plans[0].strip_index, 1);
    assert!(admission.plans[0].payload.repair_node);
    assert!(!admission.plans[0].payload.repair_rack);
    assert!(admission.error.is_none());
    let mut bare = marked();
    bare.placement_assessment = None;
    let admission = admit_placement_chunk(&chunk(vec![marked(), bare]));
    assert_eq!(admission.plans.len(), 1);
    assert_eq!(
        admission.error.unwrap().message(),
        "placement repair payload is invalid: marked strip has no placement assessment"
    );
}

#[test]
fn crowded_domains_are_found() {
    let snap = snapshot();
    let segments = marked().extract_segments();
    assert_eq!(select_source(&snap, &segments, 1), Some(0));
    assert_eq!(select_source(&snap, &segments, 2), None);
    let (racks, nodes) = over_budget_domains(&snap, &segments, 0);
    assert_eq!(racks, vec![1, 2]);
    assert_eq!(nodes, vec![1, 2]);
    let (racks, nodes) = over_budget_domains(&snap, &segments, 1);
    assert_eq!((racks, nodes), (vec![1], vec![1]));
    assert!(over_budget_disks(&segments, 2).is_empty());
    assert_eq!(
        select_target_disk_group(
            &snap,
            &segments,
            &[],
            &[1],
            &[1],
            FailureDomainPriority::RackFirst
        ),
        Some(3)
    );
    assert_eq!(
        select_target_disk_group(
            &snap,
            &segments,
            &[],
            &[1, 2, 3, 4],
            &[],
            FailureDomainPriority::RackFirst
        ),
        None
    );
}

#[test]
fn crowded_fragment_moves() {
    let snap = snapshot();
    let record = chunk(vec![marked()]);
    let (mut attempt, first) = PlacementAttempt::new(OP, placement_payload());
    assert!(matches!(first, AttemptAction::Query(ID)));
    match attempt.step(&snap, AttemptEvent::Loaded(record)) {
        AttemptAction::Assess { segments, loss_budget, usage_fresh } => {
            assert_eq!(segments, vec![segment(1), segment(11), segment(2)]);
            assert_eq!(loss_budget, 1);
            assert!(usage_fresh);
        }
        _ => panic!("the strip is assessed"),
    }
    match attempt.step(&snap, AttemptEvent::Assessed(crowded())) {
        AttemptAction::Allocate(request) => {
            assert_eq!(request.source, segment(1));
            assert_eq!(request.survivors, vec![segment(11), segment(2)]);
            assert_eq!(request.target_disk_group, 3);
        }
        _ => panic!("a destination is allocated"),
    }
    match attempt.step(&snap, AttemptEvent::Allocated(segment(3))) {
        AttemptAction::Store(payload) => {
            assert_eq!(payload.target.unwrap().phase, RepairTargetPhase::Allocated)
        }
        _ => panic!("the destination is recorded"),
    }
    match attempt.step(&snap, AttemptEvent::Performed) {
        AttemptAction::Copy { source, destination, unit_bytes } => {
            assert_eq!((source, destination, unit_bytes), (segment(1), segment(3), 1024));
        }
        _ => panic!("the fragment is copied"),
    }
    match attempt.step(&snap, AttemptEvent::Performed) {
        AttemptAction::Store(payload) => {
            assert_eq!(payload.target.unwrap().phase, RepairTargetPhase::Copied)
        }
        _ => panic!("the copy is recorded"),
    }
    match attempt.step(&snap, AttemptEvent::Performed) {
        AttemptAction::Assess { segments, .. } => {
            assert_eq!(segments, vec![segment(3), segment(11), segment(2)]);
        }
        _ => panic!("the move is assessed"),
    }
    match attempt.step(&snap, AttemptEvent::Assessed(GOOD)) {
        AttemptAction::Publish(exchange) => {
            assert!(!exchange.new_strip.placement_repair_required);
            assert_eq!(exchange.operation_id, placement_operation_id(OP, 0));
            assert_eq!(exchange.index, 0);
        }
        _ => panic!("the move is published"),
    }
    match attempt.step(&snap, AttemptEvent::Performed) {
        AttemptAction::Store(payload) => {
            assert_eq!(payload.target.unwrap().phase, RepairTargetPhase::Published)
        }
        _ => panic!("the publication is recorded"),
    }
    assert!(matches!(attempt.step(&snap, AttemptEvent::Performed), AttemptAction::Store(_)));
    assert!(matches!(
        attempt.step(&snap, AttemptEvent::Performed),
        AttemptAction::Confirm(found) if found == segment(3)
    ));
    match attempt.step(&snap, AttemptEvent::Performed) {
        AttemptAction::Store(payload) => {
            assert_eq!(payload.target.unwrap().phase, RepairTargetPhase::Confirmed)
        }
        _ => panic!("the confirmation is recorded"),
    }
    assert!(matches!(attempt.step(&snap, AttemptEvent::Performed), AttemptAction::Finish(true)));
    assert!(matches!(attempt.step(&snap, AttemptEvent::Performed), AttemptAction::Ignore));
}

#[test]
fn weakening_move_is_taken_back() {
    let snap = snapshot();
    let mut payload = placement_payload();
    payload.target = Some(RepairTargetCheckpoint {
        source: segment(1),
        destination: segment(3),
        phase: RepairTargetPhase::Copied,
    });
    let (mut attempt, _) = PlacementAttempt::new(OP, payload);
    attempt.step(&snap, AttemptEvent::Loaded(chunk(vec![marked()])));
    assert!(matches!(
        attempt.step(&snap, AttemptEvent::Assessed(crowded())),
        AttemptAction::Assess { .. }
    ));
    let weak = PlacementAssessment { rack_protected: false, ..crowded() };
    assert!(matches!(
        attempt.step(&snap, AttemptEvent::Assessed(weak)),
        AttemptAction::Discard(found) if found == segment(3)
    ));
    match attempt.step(&snap, AttemptEvent::Performed) {
        AttemptAction::Store(payload) => assert!(payload.target.is_none()),
        _ => panic!("the destination is forgotten"),
    }
    assert!(matches!(attempt.step(&snap, AttemptEvent::Performed), AttemptAction::Finish(false)));
}

#[test]
fn protected_strip_loses_its_mark() {
    let snap = snapshot();
    let (mut attempt, _) = PlacementAttempt::new(OP, placement_payload());
    attempt.step(&snap, AttemptEvent::Loaded(chunk(vec![marked()])));
    match attempt.step(&snap, AttemptEvent::Assessed(GOOD)) {
        AttemptAction::Replace(exchange) => {
            assert!(!exchange.new_strip.placement_repair_required);
            assert_eq!(exchange.new_strip.placement_assessment, Some(GOOD));
        }
        _ => panic!("the mark is cleared"),
    }
    assert!(matches!(attempt.step(&snap, AttemptEvent::Performed), AttemptAction::Finish(true)));
    let (mut attempt, _) = PlacementAttempt::new(OP, placement_payload());
    assert!(matches!(
        attempt.step(&snap, AttemptEvent::Loaded(chunk(vec![ec([2, 3, 4])]))),
        AttemptAction::Finish(true)
    ));
}

#[test]
fn published_target_is_confirmed_and_retired() {
    let mut payload = placement_payload();
    payload.target = Some(RepairTargetCheckpoint {
        source: segment(1),
        destination: segment(3),
        phase: RepairTargetPhase::Copied,
    });
    let step = confirm_published_target(payload, &[segment(3), segment(11)]);
    assert!(step.store);
    assert_eq!(step.confirm, Some(segment(3)));
    assert_eq!(step.payload.target.unwrap().phase, RepairTargetPhase::Published);
    assert!(retire_target(step.payload).is_none());
    let open = confirm_published_target(payload, &[segment(1), segment(11)]);
    assert!(!open.store);
    assert_eq!(open.confirm, None);
    let snap = snapshot();
    let (mut attempt, _) = PlacementAttempt::new(OP, payload);
    assert!(matches!(
        attempt.step(&snap, AttemptEvent::Loaded(chunk(vec![ec([3, 11, 2])]))),
        AttemptAction::Store(_)
    ));
    assert!(matches!(attempt.step(&snap, AttemptEvent::Performed), AttemptAction::Confirm(_)));
    assert!(matches!(attempt.step(&snap, AttemptEvent::Performed), AttemptAction::Store(_)));
    match attempt.step(&snap, AttemptEvent::Performed) {
        AttemptAction::Store(next) => assert!(next.target.is_none()),
        _ => panic!("the spent target is retired"),
    }
    assert!(matches!(attempt.step(&snap, AttemptEvent::Performed), AttemptAction::Finish(true)));
}

#[test]
fn missing_destinations_are_waited_out() {
    let waiting = PlacementRepairError::Lifecycle(LifecycleError::Allocation(AllocError::Placement(
        PlacementError::NoHealthyDiskGroups,
    )));
    assert!(topology_waiting(&waiting));
    assert!(matches!(outcome(Err(waiting)), TaskOutcome::Retry { error_code: 40, .. }));
    let broken = PlacementRepairError::Lifecycle(LifecycleError::LockBusy);
    assert!(!topology_waiting(&broken));
    assert!(matches!(outcome(Err(broken)), TaskOutcome::Retry { error_code: 41, .. }));
    assert!(matches!(outcome(Ok(true)), TaskOutcome::Complete));
    assert!(matches!(
        outcome(Ok(false)),
        TaskOutcome::Retry { delay_ms: 5_000, error_code: 40, .. }
    ));
    let handler = PlacementRepairTaskHandler { payload_version: 2 };
    assert_eq!(handler.kind(), TaskKind::RepairPlacement);
    assert!(handler.supports_version(2));
    assert!(!handler.supports_version(1));
}

const POLICY: PlacementRebalanceConfig = PlacementRebalanceConfig {
    imbalance_threshold_pct: 50,
    min_target_free_bytes: 1,
    hysteresis_secs: 10,
};

#[test]
fn fullest_group_gives_to_the_emptiest() {
    let snap = snapshot();
    assert_eq!(select_skewed_pair(&snap, &POLICY), Some((1, 11)));
    let strict = PlacementRebalanceConfig { imbalance_threshold_pct: 81, ..POLICY };
    assert_eq!(select_skewed_pair(&snap, &strict), None);
    let roomy = PlacementRebalanceConfig { min_target_free_bytes: 5_000, ..POLICY };
    assert_eq!(select_skewed_pair(&snap, &roomy), None);
}

#[test]
fn skew_must_last() {
    let snap = snapshot();
    let mut planner = PlacementRebalancePlanner::new(POLICY);
    assert_eq!(planner.begin_cycle(&snap, 1_000), CycleStep::Rest);
    assert_eq!(planner.begin_cycle(&snap, 10_999), CycleStep::Rest);
    assert_eq!(
        planner.begin_cycle(&snap, 11_000),
        CycleStep::Search { source_dg: 1, target_dg: 11 }
    );
    let pending =
        PendingMove { target_disk_group_id: 11, source: segment(1), target: segment(12) };
    planner.keep(pending);
    assert_eq!(planner.begin_cycle(&snap, 11_001), CycleStep::Deliver(pending));
    planner.delivered();
    assert!(planner.pending.is_none());
}

#[test]
fn candidates_lie_on_the_full_group() {
    let snap = snapshot();
    let record = chunk(vec![ec([1, 2, 3]), ec([2, 3, 4])]);
    let candidates = PlacementRebalancePlanner::move_candidates(&snap, &record, 1);
    assert_eq!(candidates.len(), 1);
    assert_eq!(candidates[0].source, segment(1));
    assert_eq!(candidates[0].strip_index, 0);
    assert_eq!(
        segments_after_move(&record.strips[0], &segment(1), segment(4)).unwrap(),
        vec![segment(4), segment(2), segment(3)]
    );
    assert!(segments_after_move(&record.strips[0], &segment(9), segment(4)).is_err());
    assert!(weakens_strip(&record.strips[0], &GOOD, &crowded()));
    assert!(!weakens_strip(&record.strips[0], &crowded(), &GOOD));
}

#[test]
fn late_writes_are_waited_for() {
    let timings =
        FinalizeTimings { max_write_request_age_ms: 10, max_clock_skew_ms: 20, scanner_margin_ms: 30 };
    match wait_for_writes(100, timings, 150) {
        Some(TaskOutcome::Retry { delay_ms, error_code, .. }) => {
            assert_eq!((delay_ms, error_code), (10, 0))
        }
        _ => panic!("writes may still arrive"),
    }
    assert!(wait_for_writes(100, timings, 160).is_none());
    assert!(is_final(ChunkState::Sealed));
    assert!(!is_final(ChunkState::Active));
    assert_eq!(finalize_at(0), Finalization::Delete);
    assert_eq!(finalize_at(1), Finalization::Seal(1));
    assert_eq!(finalize_at(1024), Finalization::Seal(1));
    assert_eq!(finalize_at(1025), Finalization::Seal(2));
    assert!(matches!(
        failed(FailedStep::Scan, "x".to_string()),
        TaskOutcome::Retry { delay_ms: 1_000, error_code: 3, .. }
    ));
}

#[test]
fn scan_stops_at_the_first_broken_frame() {
    let (mut scan, first) = FrameScan::new();
    assert_eq!(first, ScanAction::ReadHeader { offset: 0 });
    assert_eq!(
        scan.step(ScanEvent::Header { frame_length: 100 }),
        ScanAction::ReadFrame { offset: 0, length: 100 }
    );
    assert_eq!(scan.step(ScanEvent::FrameComplete), ScanAction::ReadHeader { offset: 100 });
    scan.step(ScanEvent::Header { frame_length: 50 });
    assert_eq!(scan.step(ScanEvent::FrameBroken), ScanAction::Done { boundary: 100 });
}

/// The reads of a range until it is read or cannot be: strip, disk, offset, length.
fn reads(record: &Chunk, offset: u64, length: u64) -> (Vec<(usize, u64, u64, u32)>, String) {
    let mut out = Vec::new();
    let mut reading = match ChunkRead::new(record, offset, length) {
        Ok(reading) => reading,
        Err(error) => return (out, error),
    };
    loop {
        match reading.step() {
            Ok(Some((strip, read))) => {
                out.push((strip, read.segment.disk_id.unwrap().low, read.offset, read.length));
            }
            Ok(None) => return (out, String::new()),
            Err(error) => return (out, error),
        }
    }
}

#[test]
fn reads_follow_the_layout() {
    let record = chunk(vec![mirror([1, 2]), ec([3, 4, 5])]);
    assert_eq!(
        reads(&record, 4_000, 200),
        (vec![(0, 1, 4_000, 96), (1, 3, 0, 104)], String::new())
    );
    assert_eq!(
        reads(&record, 4_096 + 4_000, 200),
        (vec![(1, 3, 4_000, 96), (1, 4, 0, 104)], String::new())
    );
    assert_eq!(reads(&record, 7, 0), (vec![], String::new()));
    assert_eq!(
        reads(&record, u64::MAX, 1),
        (vec![], "frame read range overflows".to_string())
    );
    let lost = chunk(vec![failing(mirror([1, 2]), &[1])]);
    assert_eq!(reads(&lost, 0, 10), (vec![(0, 2, 0, 10)], String::new()));
}

#[test]
fn reads_come_before_a_later_error() {
    let record = chunk(vec![mirror([1, 2]), ec([3, 4, 5])]);
    assert_eq!(
        reads(&record, 12_000, 1_000),
        (vec![(1, 4, 3_808, 288)], "chunk layout ends before frame".to_string())
    );
    let half = chunk(vec![mirror([1, 2]), failing(ec([3, 4, 5]), &[4])]);
    assert_eq!(
        reads(&half, 0, 12_288),
        (
            vec![(0, 1, 0, 4_096), (1, 3, 0, 4_096)],
            "EC data shard 1 is unavailable".to_string()
        )
    );
    let gone = chunk(vec![mirror([6, 7]), failing(mirror([1, 2]), &[1, 2])]);
    assert_eq!(
        reads(&gone, 4_090, 10),
        (vec![(0, 6, 4_090, 6)], "all mirrors unavailable for strip 1".to_string())
    );
}

#[test]
fn recoveries_are_counted() {
    let mut metrics = RepairMetrics::new();
    let stale = RecoveryStep::Answer { disposition: Disposition::Stale, count_stale: true };
    count_step(&mut metrics, &stale);
    let healed = RecoveryStep::Answer { disposition: Disposition::Healed, count_stale: false };
    count_step(&mut metrics, &healed);
    count_joining(&mut metrics, Some(true));
    count_joining(&mut metrics, Some(false));
    count_joining(&mut metrics, None);
    count_recovered(&mut metrics, true, Some(100));
    count_recovered(&mut metrics, false, Some(30));
    count_recovered(&mut metrics, false, None);
    let mut shared = AdHocRecoveryShared::new(1, 64);
    let key = RecoveryKey { chunk_id: ID, strip_sequence: 0, segment: segment(2) };
    shared.published(key, &mut metrics);
    assert_eq!(shared.join_or_insert(key, 1, 8), Some(true));
    shared.published(key, &mut metrics);
    assert_eq!(
        metrics.ad_hoc,
        AdHocCounts {
            started: 1,
            joined: 1,
            joined_bytes: 30,
            rejected: 1,
            fallbacks: 2,
            stale: 1,
            published: 1,
        }
    );
    assert_eq!(metrics.snapshot(), RepairMetrics::new().snapshot());
}

fn recovery(full: bool) -> AdHocEcRecoveryRequest {
    AdHocEcRecoveryRequest {
        version: 1,
        operation_id: Some(OP),
        chunk_id: Some(ID),
        strip_sequence: 0,
        failed_segment: Some(segment(2)),
        expected_modify_ts: 1,
        request_full_block: full,
    }
}

#[test]
fn recovery_requests_are_identified() {
    let (key, operation) = identify(&recovery(true)).unwrap();
    assert_eq!(operation, OP);
    assert_eq!(key, RecoveryKey { chunk_id: ID, strip_sequence: 0, segment: segment(2) });
    assert_eq!(
        identify(&AdHocEcRecoveryRequest { chunk_id: None, ..recovery(true) }).unwrap_err(),
        "chunk ID is required"
    );
    assert_eq!(
        identify(&AdHocEcRecoveryRequest { failed_segment: None, ..recovery(true) }).unwrap_err(),
        "failed segment is required"
    );
    assert_eq!(
        identify(&AdHocEcRecoveryRequest { version: 2, ..recovery(true) }).unwrap_err(),
        "invalid recovery request identity"
    );
}

#[test]
fn recovery_is_planned_from_the_record() {
    let (key, _) = identify(&recovery(true)).unwrap();
    let good = chunk(vec![failing(ec([1, 2, 3]), &[2])]);
    assert_eq!(
        plan_recovery(&good, &key, 1, true),
        RecoveryStep::Recover { reserve_bytes: 4096 }
    );
    assert_eq!(
        plan_recovery(&good, &key, 9, true),
        RecoveryStep::Answer { disposition: Disposition::Stale, count_stale: true }
    );
    assert_eq!(
        plan_recovery(&good, &key, 1, false),
        RecoveryStep::Report { strip_index: 0, marked: true }
    );
    let healed = chunk(vec![ec([1, 9, 3])]);
    assert_eq!(
        plan_recovery(&healed, &key, 1, true),
        RecoveryStep::Answer { disposition: Disposition::Healed, count_stale: false }
    );
    let short = chunk(vec![failing(ec([1, 2, 3]), &[1])]);
    assert_eq!(
        plan_recovery(&short, &key, 1, true),
        RecoveryStep::Answer { disposition: Disposition::InsufficientShards, count_stale: false }
    );
    let mirrored = chunk(vec![mirror([1, 2])]);
    assert_eq!(
        plan_recovery(&mirrored, &key, 1, true),
        RecoveryStep::Answer { disposition: Disposition::Incompatible, count_stale: false }
    );
    assert_eq!(
        plan_recovery(&mirrored, &key, 1, false),
        RecoveryStep::Report { strip_index: 0, marked: false }
    );
    assert_eq!(mark_segment(&mirrored.strips[0], segment(2)).unavailable_segments, vec![segment(2)]);
    assert_eq!(find_repair_task(&good, 0), Some(repair_task_id(0, &[segment(2)])));
    assert_eq!(find_repair_task(&good, 5), None);
}

#[test]
fn fragment_beyond_memory_is_too_large() {
    let (key, _) = identify(&recovery(true)).unwrap();
    let mut huge = segment(2);
    huge.unit_count = u32::MAX;
    let mut strip = ec([1, 2, 3]);
    if let Some(Strip::EcStrip(layout)) = &mut strip.strip {
        layout.segments[1] = huge;
    }
    strip.unavailable_segments = vec![huge];
    strip.unit_kb = u32::MAX;
    let record = chunk(vec![strip]);
    let key = RecoveryKey { segment: huge, ..key };
    assert_eq!(plan_recovery(&record, &key, 1, true), RecoveryStep::TooLarge);
    assert_eq!(
        plan_recovery(&record, &key, 2, true),
        RecoveryStep::Answer { disposition: Disposition::Stale, count_stale: true }
    );
}

#[test]
fn recoveries_share_a_budget() {
    let (key, _) = identify(&recovery(true)).unwrap();
    let other = RecoveryKey { strip_sequence: 1, ..key };
    let mut shared = AdHocRecoveryShared::new(2, 100);
    assert_eq!(shared.join_or_insert(key, 5, 60), Some(true));
    assert_eq!(shared.join_or_insert(key, 5, 60), Some(false));
    assert_eq!(shared.join_or_insert(key, 6, 60), None);
    assert_eq!(shared.join_or_insert(other, 5, 60), None);
    assert!(shared.is_running(key));
    shared.remove(key);
    assert!(!shared.is_running(key));
    assert_eq!(shared.memory_free, 100);
    assert_eq!(shared.join_or_insert(other, 5, 60), Some(true));
    assert_eq!(answer_recovered(true, true), Disposition::Started);
    assert_eq!(answer_recovered(false, true), Disposition::Coalesced);
    assert_eq!(answer_recovered(true, false), Disposition::Saturated);
}

#[test]
fn repair_task_is_claimed_through_its_index() {
    let plan = RepairCoordinator::admit_chunk(&chunk(vec![failing(ec([1, 2, 3]), &[1])]))
        .unwrap()
        .remove(0);
    let task = make_task(&plan, 5, vec![1], 100, TaskVersions { schema: 1, payload: 1 });
    let index = claim_index(&task, plan.task_id);
    assert_eq!(index.priority_inverse, u8::MAX - task.priority);
    assert_eq!(index.eligible_at_ms, 0);
    assert_eq!(index.partition_id, ID);
}
