//! Durable tasks: their records, claims, dispatch, and relocation of segments.
use crowdb_chunkdb::lifecycle::error::LifecycleError;
use crowdb_chunkdb::lifecycle::handler::LifecycleHandler;
use crowdb_chunkdb::placement_repair::{RepairTargetCheckpoint, RepairTargetPhase};
use crowdb_chunkdb::relocation::{
    answer_handoff, make_task, validate_request, HandoffField, RelocateSegmentHandoffRequest,
    RelocationAdmissionError, RelocationHandoffDisposition,
};
use crowdb_chunkdb::task::executor::{
    settle, Dispatch, Registration, Settlement, TaskExecutor, TaskOutcome, TaskRegistryError,
};
use crowdb_chunkdb::task::manager::{TaskAdmission, TaskClaim, TaskManager, TaskManagerError};
use crowdb_chunkdb::task::owner::{
    OwnerTask, SegmentOwnerDisposition, SegmentOwnerError, SegmentOwnerResolver, TaskCheckpoint,
};
use crowdb_chunkdb::task::relocation::{
    judge_relocation, loss_budget, plan_relocation, relocation_outcome,
    RelocateSegmentTaskDisposition, RelocateSegmentTaskPayload, RelocationStep,
};
use crowdb_chunkdb::task::scanner::TaskScanner;
use crowdb_chunkdb::task::store::{
    canonical_key, check_key, index_key, scan_expired_leases, scan_ready, write_transition,
    TaskIndex, TaskOp, TaskStoreError,
};
use crowdb_chunkdb::task::{
    ChunkTaskState, ChunkTaskValue, LeasedChunkTaskKey, ReadyChunkTaskKey, TaskKind, TaskVersions,
};
use crowdb_chunkdb::types::{
    Chunk, ChunkId, ChunkStrip, ChunkType, DiskId, FailureDomainPriority, MirrorStrip,
    PlacementAssessment, Segment, Strip, StripType,
};

const CHUNK: ChunkId = ChunkId { high: 1, low: 1 };
const TASK: ChunkId = ChunkId { high: 2, low: 2 };
const OP: ChunkId = ChunkId { high: 3, low: 3 };

fn segment(n: u64) -> Segment {
    Segment {
        disk_id: Some(DiskId { high: 0, low: n }),
        owner_chunk: Some(CHUNK),
        zone_index: 0,
        unit_offset: n,
        unit_count: 2,
        allocation_ts: 1,
    }
}

fn task() -> ChunkTaskValue {
    ChunkTaskValue {
        schema_version: 1,
        task_id: TASK,
        partition_id: CHUNK,
        kind: TaskKind::RepairStrip,
        kind_version: 1,
        state: ChunkTaskState::Pending,
        priority: 200,
        revision: 1,
        operation_id: OP,
        source_revision: 7,
        created_at_ms: 10,
        updated_at_ms: 10,
        eligible_at_ms: 10,
        attempt: 0,
        max_attempts: 2,
        estimated_queue_bytes: 0,
        claim_owner: 0,
        claim_generation: 4,
        claim_deadline_ms: 0,
        last_error_code: 0,
        last_error: String::new(),
        payload: vec![1, 2, 3],
    }
}

fn ready_key() -> ReadyChunkTaskKey {
    ReadyChunkTaskKey {
        priority_inverse: 55,
        eligible_at_ms: 10,
        partition_id: CHUNK,
        kind: TaskKind::RepairStrip,
        task_id: TASK,
    }
}

fn claim() -> TaskClaim {
    let manager = TaskManager::new(9, 100);
    let running = manager.claim(&ready_key(), Some(&task()), 20).unwrap();
    manager.confirm_claim(Some(running), 5).unwrap()
}

#[test]
fn claim_starts_an_attempt() {
    let running = claim().task;
    assert_eq!(running.state, ChunkTaskState::Running);
    assert_eq!(running.revision, 2);
    assert_eq!(running.attempt, 1);
    assert_eq!(running.claim_owner, 9);
    assert_eq!(running.claim_generation, 5);
    assert_eq!(running.claim_deadline_ms, 120);
    assert_eq!(running.payload, vec![1, 2, 3]);
}

#[test]
fn stale_index_entries_claim_nothing() {
    let manager = TaskManager::new(9, 0);
    assert_eq!(manager.lease_ms, 1);
    assert!(manager.claim(&ready_key(), None, 20).is_none());
    assert!(manager.claim(&ready_key(), Some(&task()), 9).is_none());
    let mut other = ready_key();
    other.priority_inverse = 54;
    assert!(manager.claim(&other, Some(&task()), 20).is_none());
    assert!(manager.claim(&ready_key(), Some(&claim().task), 20).is_none());
}

#[test]
fn new_claim_fences_the_old_one() {
    let first = claim();
    let manager = TaskManager::new(9, 100);
    let index = LeasedChunkTaskKey {
        lease_deadline_ms: 120,
        partition_id: CHUNK,
        kind: TaskKind::RepairStrip,
        task_id: TASK,
    };
    assert!(TaskManager::recover_expired(&index, Some(&first.task), 119).is_none());
    let requeued = TaskManager::recover_expired(&index, Some(&first.task), 120).unwrap();
    let mut key = ready_key();
    key.eligible_at_ms = requeued.eligible_at_ms;
    let second = manager.claim(&key, Some(&requeued), 500).unwrap();
    assert!(matches!(
        manager.complete(&first, Some(&second), 501),
        Err(TaskManagerError::StaleClaim)
    ));
}

#[test]
fn claims_end_once() {
    let manager = TaskManager::new(9, 100);
    let held = claim();
    let done = manager.complete(&held, Some(&held.task), 30).unwrap();
    assert_eq!(done.state, ChunkTaskState::Completed);
    assert_eq!((done.claim_owner, done.claim_deadline_ms, done.revision), (0, 0, 3));
    assert!(manager.complete(&held, Some(&done), 31).is_err());
    assert!(manager.fail(&held, None, 31, 1, "x").is_err());
    let failed = manager.fail(&held, Some(&held.task), 30, 8, "broken").unwrap();
    assert_eq!(failed.state, ChunkTaskState::Failed);
    assert_eq!((failed.last_error_code, failed.last_error.as_str()), (8, "broken"));
}

#[test]
fn last_attempt_is_not_retried() {
    let manager = TaskManager::new(9, 100);
    let mut held = claim();
    let waiting = manager.retry(&held, Some(&held.task), 30, 99, 5, "later").unwrap();
    assert_eq!(waiting.state, ChunkTaskState::RetryWait);
    assert_eq!(waiting.eligible_at_ms, 99);
    held.task.attempt = 2;
    let failed = manager.retry(&held, Some(&held.task), 30, 99, 5, "later").unwrap();
    assert_eq!(failed.state, ChunkTaskState::Failed);
}

#[test]
fn admission_tells_created_from_existing() {
    assert!(matches!(
        TaskManager::admission(&task(), Some(task())),
        Ok(TaskAdmission::Created(_))
    ));
    let mut other = task();
    other.revision = 9;
    assert!(matches!(
        TaskManager::admission(&task(), Some(other)),
        Ok(TaskAdmission::Existing(_))
    ));
    assert!(TaskManager::admission(&task(), None).is_err());
}

#[test]
fn index_follows_the_state() {
    assert_eq!(index_key(&task()), Some(TaskIndex::Ready(ready_key())));
    match index_key(&claim().task) {
        Some(TaskIndex::Leased(key)) => assert_eq!(key.lease_deadline_ms, 120),
        _ => panic!("running tasks are leased"),
    }
    let mut done = task();
    done.state = ChunkTaskState::Completed;
    assert_eq!(index_key(&done), None);
}

#[test]
fn transition_moves_the_index_entry() {
    let before = task();
    let after = claim().task;
    let ops = write_transition(Some(&before), &after).unwrap();
    assert!(ops.contains(&TaskOp::DeleteIndex(TaskIndex::Ready(ready_key()))));
    assert!(ops.contains(&TaskOp::PutRecord(canonical_key(&after))));
    assert!(ops.contains(&TaskOp::PutIndex(index_key(&after).unwrap())));
    let mut other = task();
    other.task_id = OP;
    assert!(matches!(
        write_transition(Some(&before), &other),
        Err(TaskStoreError::IdentityChanged)
    ));
    assert!(check_key(&canonical_key(&before), &before).is_ok());
    assert!(matches!(
        check_key(&canonical_key(&other), &before),
        Err(TaskStoreError::KeyMismatch)
    ));
}

#[test]
fn ready_tasks_come_by_priority() {
    let urgent = ReadyChunkTaskKey { priority_inverse: 1, task_id: OP, ..ready_key() };
    let late = ReadyChunkTaskKey { eligible_at_ms: 1_000, ..ready_key() };
    let found = scan_ready(&[ready_key(), late, urgent, ready_key()], 20, 10);
    assert_eq!(found, vec![urgent, ready_key()]);
    assert_eq!(scan_ready(&[ready_key(), urgent], 20, 1), vec![urgent]);
}

#[test]
fn expired_leases_come_by_deadline() {
    let lease = |deadline| LeasedChunkTaskKey {
        lease_deadline_ms: deadline,
        partition_id: CHUNK,
        kind: TaskKind::RepairStrip,
        task_id: TASK,
    };
    assert_eq!(
        scan_expired_leases(&[lease(30), lease(10), lease(99)], 50, 10),
        vec![lease(10), lease(30)]
    );
}

#[test]
fn handlers_have_distinct_kinds() {
    let handler = |kind| Registration { kind, version: 1 };
    assert_eq!(
        TaskExecutor::new(
            1,
            vec![handler(TaskKind::MirrorToEc), handler(TaskKind::Other(7)), handler(TaskKind::Other(7))]
        )
        .unwrap_err(),
        TaskRegistryError::DuplicateKind(TaskKind::Other(7))
    );
    let executor =
        TaskExecutor::new(0, vec![handler(TaskKind::MirrorToEc), handler(TaskKind::RepairStrip)])
            .unwrap();
    assert_eq!(executor.max_concurrency, 1);
    assert_eq!(executor.available_capacity(0), 1);
    assert_eq!(executor.available_capacity(5), 0);
    assert!(matches!(executor.dispatch(TaskKind::RepairStrip, 1), Dispatch::Run(1)));
    assert!(matches!(
        executor.dispatch(TaskKind::RepairStrip, 2),
        Dispatch::Fail { error_code: 3, .. }
    ));
    assert!(matches!(
        executor.dispatch(TaskKind::RelocateSegment, 1),
        Dispatch::Fail { error_code: 2, .. }
    ));
}

#[test]
fn outcomes_are_settled() {
    assert!(matches!(settle(TaskOutcome::Complete, 5), Settlement::Complete));
    let retry = TaskOutcome::Retry { delay_ms: u64::MAX, error_code: 4, error: "e".to_string() };
    match settle(retry, 5) {
        Settlement::Retry { eligible_at_ms, error_code, error } => {
            assert_eq!((eligible_at_ms, error_code, error.as_str()), (u64::MAX, 4, "e"));
        }
        _ => panic!("retried"),
    }
}

#[test]
fn scan_is_summed_up() {
    let scanner = TaskScanner::new(0, 0);
    assert_eq!((scanner.scan_limit, scanner.safety_interval_ms), (1, 1));
    assert!(TaskScanner::may_claim(1, 2));
    assert!(!TaskScanner::may_claim(2, 2));
    let summary = TaskScanner::summarize(&[true, false], 5, 3, &[true, true, false]);
    assert_eq!(summary.expired_claims_requeued, 1);
    assert_eq!(summary.ready_indexes_seen, 5);
    assert_eq!(summary.tasks_claimed, 3);
    assert_eq!(summary.tasks_completed_or_requeued, 2);
    assert_eq!(summary.dispatch_errors, 1);
}

fn mirrored(segments: Vec<Segment>) -> Chunk {
    let strip = ChunkStrip {
        chunk_offset: 0,
        strip_sequence: 0,
        unit_kb: 1,
        capacity: 2,
        create_ts_ms: 1,
        sealed_ts_ms: 0,
        sealed_length: 0,
        strip_type: StripType::Mirror,
        strip: Some(Strip::MirrorStrip(MirrorStrip { segments })),
        usage_bitmap: Vec::new(),
        unavailable_segments: Vec::new(),
        placement_repair_required: false,
        placement_assessment: None,
        placement_priority: FailureDomainPriority::RackFirst,
    };
    LifecycleHandler::new()
        .allocate_chunk(CHUNK, 0, vec![strip], 1, ChunkType::Repo, 0, 0, 1)
        .unwrap()
}

#[test]
fn owner_is_found_in_the_record_first() {
    let found = SegmentOwnerResolver::resolve_record(
        &CHUNK,
        &segment(1),
        Ok(mirrored(vec![segment(1), segment(2)])),
    );
    assert!(matches!(found, Ok(Some(SegmentOwnerDisposition::Referenced))));
    let open = SegmentOwnerResolver::resolve_record(
        &CHUNK,
        &segment(9),
        Ok(mirrored(vec![segment(1)])),
    );
    assert!(matches!(open, Ok(None)));
    let gone =
        SegmentOwnerResolver::resolve_record(&CHUNK, &segment(1), Err(LifecycleError::ChunkNotFound));
    assert!(matches!(gone, Ok(Some(SegmentOwnerDisposition::Absent))));
    assert!(matches!(
        SegmentOwnerResolver::resolve_record(&OP, &segment(1), Err(LifecycleError::ChunkNotFound)),
        Err(SegmentOwnerError::OwnerMismatch)
    ));
    assert!(matches!(
        SegmentOwnerResolver::resolve_record(&CHUNK, &segment(1), Err(LifecycleError::LockBusy)),
        Err(SegmentOwnerError::Lifecycle(_))
    ));
}

#[test]
fn active_tasks_own_their_targets() {
    let target = RepairTargetCheckpoint {
        source: segment(1),
        destination: segment(5),
        phase: RepairTargetPhase::Allocated,
    };
    let owner = |state| OwnerTask {
        state,
        checkpoint: Ok(TaskCheckpoint::RepairPlacement(Some(target))),
    };
    assert!(matches!(
        SegmentOwnerResolver::resolve_tasks(&segment(5), &[owner(ChunkTaskState::Running)]),
        Ok(SegmentOwnerDisposition::TaskPending)
    ));
    assert!(matches!(
        SegmentOwnerResolver::resolve_tasks(&segment(5), &[owner(ChunkTaskState::Completed)]),
        Ok(SegmentOwnerDisposition::Absent)
    ));
    let broken = OwnerTask { state: ChunkTaskState::Pending, checkpoint: Err("bad".to_string()) };
    assert!(matches!(
        SegmentOwnerResolver::resolve_tasks(&segment(5), &[broken]),
        Err(SegmentOwnerError::Checkpoint(_))
    ));
}

fn handoff() -> RelocateSegmentHandoffRequest {
    RelocateSegmentHandoffRequest {
        operation_id: Some(OP),
        chunk_id: Some(CHUNK),
        source: Some(segment(1)),
        target: Some(segment(5)),
    }
}

fn payload() -> RelocateSegmentTaskPayload {
    validate_request(&handoff(), Some(OP)).unwrap()
}

#[test]
fn handoff_is_checked() {
    assert_eq!(payload().disposition, RelocateSegmentTaskDisposition::Accepted);
    for (request, field) in [
        (RelocateSegmentHandoffRequest { operation_id: None, ..handoff() }, HandoffField::OperationId),
        (RelocateSegmentHandoffRequest { chunk_id: None, ..handoff() }, HandoffField::ChunkId),
        (RelocateSegmentHandoffRequest { source: None, ..handoff() }, HandoffField::Source),
        (RelocateSegmentHandoffRequest { target: None, ..handoff() }, HandoffField::Target),
    ] {
        match validate_request(&request, Some(OP)) {
            Err(RelocationAdmissionError::Missing(found)) => assert_eq!(found, field),
            _ => panic!("something is missing"),
        }
    }
    let same = RelocateSegmentHandoffRequest { target: Some(segment(1)), ..handoff() };
    assert!(matches!(
        validate_request(&same, Some(OP)),
        Err(RelocationAdmissionError::InvalidGeometry)
    ));
    assert!(validate_request(&handoff(), Some(TASK)).is_err());
}

#[test]
fn handoff_is_answered_from_its_task() {
    let versions = TaskVersions { schema: 3, payload: 4 };
    let task = make_task(&payload(), vec![9], versions, 77);
    assert_eq!(task.kind, TaskKind::RelocateSegment);
    assert_eq!((task.schema_version, task.kind_version), (3, 4));
    assert_eq!(task.partition_id, CHUNK);
    assert!(matches!(
        answer_handoff(&payload(), ChunkTaskState::Pending, &payload()),
        Ok(RelocationHandoffDisposition::Accepted)
    ));
    assert!(matches!(
        answer_handoff(&payload(), ChunkTaskState::Failed, &payload()),
        Ok(RelocationHandoffDisposition::Rejected)
    ));
    let mut other = payload();
    other.target = segment(6);
    assert!(matches!(
        answer_handoff(&payload(), ChunkTaskState::Pending, &other),
        Err(RelocationAdmissionError::IdentityConflict)
    ));
}

const GOOD: PlacementAssessment = PlacementAssessment {
    rack_protected: true,
    node_protected: true,
    disk_protected: true,
    max_fragments_per_rack: 1,
    max_fragments_per_node: 1,
    max_fragments_per_disk: 1,
    usage_fresh: true,
};

#[test]
fn relocation_follows_the_record() {
    let before = mirrored(vec![segment(1), segment(2)]);
    match plan_relocation(Some(&before), payload(), 100, 50) {
        RelocationStep::Assess { strip_index, replacement, .. } => {
            assert_eq!(strip_index, 0);
            assert_eq!(replacement.mirror_segments(), vec![segment(5), segment(2)]);
            let publish = judge_relocation(payload(), 1, 0, replacement, &GOOD, &GOOD, 100, 50);
            assert_eq!(publish.unwrap().strip_index, 0);
        }
        _ => panic!("the source is still there"),
    }
    match plan_relocation(None, payload(), 100, 50) {
        RelocationStep::Finish(next) => {
            assert_eq!(next.disposition, RelocateSegmentTaskDisposition::Stale)
        }
        _ => panic!("the chunk is gone"),
    }
    let both = mirrored(vec![segment(1), segment(5)]);
    match plan_relocation(Some(&both), payload(), 100, 50) {
        RelocationStep::Finish(next) => {
            assert_eq!(next.disposition, RelocateSegmentTaskDisposition::Rejected)
        }
        _ => panic!("source and target are both there"),
    }
}

#[test]
fn source_waits_for_readers() {
    let after = mirrored(vec![segment(5), segment(2)]);
    let waiting = match plan_relocation(Some(&after), payload(), 100, 50) {
        RelocationStep::Published { payload, changed, complete } => {
            assert!(changed);
            assert!(!complete);
            assert_eq!(payload.source_free_not_before_ms, 150);
            payload
        }
        _ => panic!("the target is published"),
    };
    match plan_relocation(Some(&after), waiting, 150, 50) {
        RelocationStep::Published { payload, complete, .. } => {
            assert!(complete);
            assert_eq!(payload.disposition, RelocateSegmentTaskDisposition::Published);
        }
        _ => panic!("the wait is over"),
    }
}

#[test]
fn weakening_relocation_is_rejected() {
    let weak = PlacementAssessment { rack_protected: false, ..GOOD };
    let chunk = mirrored(vec![segment(5), segment(2)]);
    let strip = chunk.strips[0].clone();
    assert_eq!(loss_budget(&strip), Some(1));
    let rejected = judge_relocation(payload(), 1, 0, strip, &GOOD, &weak, 100, 50).unwrap_err();
    assert_eq!(rejected.disposition, RelocateSegmentTaskDisposition::Rejected);
    assert!(matches!(relocation_outcome(Ok(true)), TaskOutcome::Complete));
    assert!(matches!(relocation_outcome(Ok(false)), TaskOutcome::Retry { .. }));
}
