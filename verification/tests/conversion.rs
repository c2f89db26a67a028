//! Conversion of mirrored strips to erasure coding.
use crowdb_chunkdb::conversion::attempt::{
    installed, readable_segments, ConversionRunError, ConversionStep, MirrorToEcTaskHandler,
};
use crowdb_chunkdb::conversion::bandwidth::BandwidthLimiter;
use crowdb_chunkdb::conversion::coordinator::{
    finish_task, make_background_task, make_client_task, record_allocation, recovery_of,
    reservation_cursor_after, CompleteStep, ConversionCoordinator, ConversionRequest, PrepareStep,
    StoredConversion,
};
use crowdb_chunkdb::conversion::io::{disk_id, read_length, target};
use crowdb_chunkdb::conversion::run::{ConversionAction, ConversionAttempt, ConversionEvent};
use crowdb_chunkdb::conversion::{
    candidate_group, conversion_operation_id, conversion_task_id, io_accounting, is_countable,
    locate_source, validate_source, ConversionError, MirrorToEcPhase, MirrorToEcTaskV1,
};
use crowdb_chunkdb::lifecycle::handler::LifecycleHandler;
use crowdb_chunkdb::task::executor::TaskOutcome;
use crowdb_chunkdb::task::{ChunkTaskState, TaskKind, TaskVersions};
use crowdb_chunkdb::types::{
    Chunk, ChunkId, ChunkStrip, ChunkType, DiskId, EcState, EcStrip, FailureDomainPriority,
    MirrorStrip, Segment, Strip, StripType,
};

const ID: ChunkId = ChunkId { high: 1, low: 2 };
const OP: ChunkId = ChunkId { high: 9, low: 9 };

fn segment(n: u64) -> Segment {
    Segment {
        disk_id: Some(DiskId { high: 0, low: n }),
        owner_chunk: Some(ID),
        zone_index: 3,
        unit_offset: n,
        unit_count: 4,
        allocation_ts: 1,
    }
}

fn strip(sequence: u32, body: Strip, capacity: u32) -> ChunkStrip {
    let strip_type = match body {
        Strip::MirrorStrip(_) => StripType::Mirror,
        Strip::EcStrip(_) => StripType::Ec,
    };
    ChunkStrip {
        chunk_offset: 0,
        strip_sequence: sequence,
        unit_kb: 1,
        capacity,
        create_ts_ms: 1,
        sealed_ts_ms: 0,
        sealed_length: 0,
        strip_type,
        strip: Some(body),
        usage_bitmap: Vec::new(),
        unavailable_segments: Vec::new(),
        placement_repair_required: false,
        placement_assessment: None,
        placement_priority: FailureDomainPriority::RackFirst,
    }
}

fn mirror(sequence: u32) -> ChunkStrip {
    let at = u64::from(sequence) * 10;
    strip(
        sequence,
        Strip::MirrorStrip(MirrorStrip { segments: vec![segment(at + 1), segment(at + 2)] }),
        4,
    )
}

fn replacement() -> ChunkStrip {
    strip(
        0,
        Strip::EcStrip(EcStrip {
            data_num: 2,
            code_num: 1,
            ec_state: EcState::NoParity,
            segments: vec![segment(101), segment(102), segment(103)],
        }),
        8,
    )
}

fn sealed() -> Chunk {
    let handler = LifecycleHandler::new();
    let chunk = handler
        .allocate_chunk(
            ID,
            0,
            vec![mirror(0), mirror(1), mirror(2), mirror(3), mirror(4)],
            5,
            ChunkType::Repo,
            0,
            0,
            1,
        )
        .unwrap();
    handler.seal_chunk(&chunk, 0, 20, 100).unwrap()
}

fn payload(chunk: &Chunk) -> MirrorToEcTaskV1 {
    MirrorToEcTaskV1 {
        chunk_id: ID,
        expected_modify_ts: chunk.modify_ts,
        start_index: 0,
        old_strips: vec![chunk.strips[0].clone(), chunk.strips[1].clone()],
        data_num: 2,
        code_num: 1,
        replacement_strip: None,
        phase: MirrorToEcPhase::Discovered,
    }
}

#[test]
fn source_must_stand_where_it_stood() {
    let chunk = sealed();
    let old = vec![chunk.strips[1].clone(), chunk.strips[2].clone()];
    assert!(validate_source(&chunk, 2, 1, &old).is_ok());
    assert!(validate_source(&chunk, 1, 1, &old).is_err());
    assert!(validate_source(&chunk, 2, 2, &old).is_err());
    assert!(validate_source(&chunk, 2, 1, &[]).is_err());
    assert_eq!(locate_source(&chunk, &old), Some(1));
    let open = LifecycleHandler::new()
        .allocate_chunk(ID, 0, vec![mirror(0)], 1, ChunkType::Repo, 0, 0, 1)
        .unwrap();
    assert!(matches!(
        validate_source(&open, 1, 0, &[open.strips[0].clone()]),
        Err(ConversionError::Conflict)
    ));
}

#[test]
fn candidates_are_even_runs_of_mirrors() {
    let chunk = sealed();
    assert!(candidate_group(&chunk, &chunk.strips[0..2], false, 0, 0));
    assert!(!candidate_group(&chunk, &chunk.strips[0..2], true, 50, 100));
    let mut uneven = chunk.strips[0..2].to_vec();
    uneven[1].capacity = 5;
    assert!(!candidate_group(&chunk, &uneven, false, 0, 0));
    let mut aged = chunk.strips[0..2].to_vec();
    for strip in &mut aged {
        strip.sealed_ts_ms = 100;
    }
    assert!(!candidate_group(&chunk, &aged, true, 50, 149));
    assert!(candidate_group(&chunk, &aged, true, 50, 150));
}

#[test]
fn groups_do_not_overlap() {
    let chunk = sealed();
    let groups = ConversionCoordinator::admit_groups(&chunk, 2, 1, 0, false, 0).unwrap();
    let starts: Vec<u32> = groups.iter().map(|group| group.payload.start_index).collect();
    assert_eq!(starts, vec![0, 2]);
    assert_ne!(groups[0].task_id, groups[1].task_id);
    assert_ne!(groups[0].operation_id, groups[1].operation_id);
    assert!(matches!(
        ConversionCoordinator::admit_groups(&chunk, 0, 1, 0, false, 0),
        Err(ConversionError::Payload(_))
    ));
    assert!(ConversionCoordinator::considers(&chunk, true, 5));
    assert!(!ConversionCoordinator::considers(&chunk, true, 6));
    assert_eq!(ConversionCoordinator::batch_limit(0), 256);
    assert_eq!(ConversionCoordinator::batch_limit(3), 3);
}

#[test]
fn identities_follow_the_source() {
    let chunk = sealed();
    let id = conversion_task_id(&chunk.strips[1..3], 8, 4).unwrap();
    assert_eq!(id, ChunkId { high: 1, low: (8 << 32) | 4 });
    assert!(conversion_task_id(&[], 8, 4).is_err());
    let operation = conversion_operation_id(ID, id);
    assert_eq!(operation.high, 1 ^ ((8u64 << 32) | 4).rotate_left(17) ^ 0x93ec_0000_0000_0001);
    assert_eq!(operation.low, 2 ^ 1u64.rotate_left(29) ^ 0xec93_0000_0000_0001);
}

#[test]
fn amounts_are_counted() {
    let chunk = sealed();
    let amounts = io_accounting(&payload(&chunk));
    assert_eq!(amounts.read_bytes, 8 * 1024);
    assert_eq!(amounts.write_bytes, 3 * 4 * 1024);
    assert_eq!(amounts.retired_segments, 4);
    assert!(is_countable(&chunk.strips));
}

fn request(chunk: &Chunk) -> ConversionRequest {
    ConversionRequest {
        chunk_id: ID,
        expected_modify_ts: chunk.modify_ts,
        start_index: 0,
        old_strips: vec![chunk.strips[0].clone(), chunk.strips[1].clone()],
        data_num: 2,
        code_num: 1,
    }
}

const VERSIONS: TaskVersions = TaskVersions { schema: 1, payload: 1 };

#[test]
fn prepared_conversion_can_be_asked_for_again() {
    let chunk = sealed();
    let (task_id, operation_id, first) =
        match ConversionCoordinator::prepare(&chunk, &request(&chunk), 7, None).unwrap() {
            PrepareStep::Create { task_id, operation_id, payload } => (task_id, operation_id, payload),
            _ => panic!("nothing is stored"),
        };
    let task = make_client_task(task_id, operation_id, &first, vec![1], 7, 100, 50, VERSIONS);
    assert_eq!(task.state, ChunkTaskState::Running);
    assert_eq!(task.claim_owner, 7);
    assert_eq!(task.claim_deadline_ms, 150);
    let stored = StoredConversion { task: task.clone(), payload: Ok(first.clone()) };
    assert!(matches!(
        ConversionCoordinator::prepare(&chunk, &request(&chunk), 7, Some(stored)),
        Ok(PrepareStep::Allocate { .. })
    ));
    let allocated = record_allocation(first, replacement());
    assert_eq!(allocated.phase, MirrorToEcPhase::Allocated);
    let stored = StoredConversion { task: task.clone(), payload: Ok(allocated.clone()) };
    match ConversionCoordinator::prepare(&chunk, &request(&chunk), 7, Some(stored)).unwrap() {
        PrepareStep::Ready(prepared) => assert!(prepared.replacement_strip.same(&replacement())),
        _ => panic!("a replacement is allocated"),
    }
    let stored = StoredConversion { task: task.clone(), payload: Ok(allocated.clone()) };
    assert!(matches!(
        ConversionCoordinator::prepare(&chunk, &request(&chunk), 8, Some(stored)),
        Err(ConversionError::StaleClaim)
    ));
    let stored = StoredConversion { task: task.clone(), payload: Ok(allocated) };
    match ConversionCoordinator::complete(Some(stored), 7).unwrap() {
        CompleteStep::Publish { payload, replacement } => {
            assert_eq!(payload.phase, MirrorToEcPhase::Published);
            match replacement.strip {
                Some(Strip::EcStrip(body)) => assert_eq!(body.ec_state, EcState::Parity),
                _ => panic!("layout changed"),
            }
        }
        CompleteStep::Answer => panic!("not yet complete"),
    }
    let done = finish_task(&task, vec![2], 60);
    assert_eq!(done.state, ChunkTaskState::Completed);
    let stored = StoredConversion { task: done, payload: Err("unused".to_string()) };
    assert!(matches!(
        ConversionCoordinator::complete(Some(stored), 7),
        Ok(CompleteStep::Answer)
    ));
    assert!(matches!(ConversionCoordinator::complete(None, 7), Err(ConversionError::Conflict)));
}

#[test]
fn background_task_yields_to_clients() {
    let chunk = sealed();
    let task = make_background_task(OP, ID, &payload(&chunk), vec![1], 50, VERSIONS);
    assert_eq!(task.kind, TaskKind::MirrorToEc);
    assert_eq!(task.state, ChunkTaskState::Pending);
    assert_eq!(task.priority, 128);
    assert_eq!(task.claim_owner, 0);
}

#[test]
fn transfers_keep_to_the_rate() {
    let mut limiter = BandwidthLimiter::new(1_000);
    assert_eq!(limiter.acquire(500, 10), 0);
    assert_eq!(limiter.acquire(1, 10), 500_000_000);
    assert_eq!(limiter.acquire(1, 10), 501_000_000);
    assert_eq!(BandwidthLimiter::new(0).bytes_per_second, 1);
}

#[test]
fn segments_have_addresses() {
    let address = target(&segment(7), 1024).unwrap();
    assert_eq!(address.disk_id, DiskId { high: 0, low: 7 });
    assert_eq!((address.zone_index, address.unit_offset, address.unit_size), (3, 7, 1024));
    let mut bare = segment(7);
    bare.disk_id = None;
    assert!(disk_id(&bare).is_err());
    assert_eq!(
        target(&bare, 1 << 32).unwrap_err().message(),
        "conversion DiskIO operation failed: segment unit size exceeds u32"
    );
    assert_eq!(read_length(5).unwrap(), 5);
    assert!(read_length(1 << 32).is_err());
}

#[test]
fn attempt_follows_a_moved_source() {
    let mut chunk = sealed();
    let mut moved = payload(&chunk);
    moved.old_strips = vec![chunk.strips[1].clone(), chunk.strips[2].clone()];
    match MirrorToEcTaskHandler::plan_attempt(&chunk, moved) {
        ConversionStep::Convert { payload, moved } => {
            assert!(moved);
            assert_eq!(payload.start_index, 1);
        }
        _ => panic!("the source is still there"),
    }
    let mut gone = payload(&chunk);
    chunk.strips.remove(0);
    assert!(matches!(
        MirrorToEcTaskHandler::plan_attempt(&chunk, gone.clone()),
        ConversionStep::Conflict
    ));
    gone.replacement_strip = Some(replacement());
    match MirrorToEcTaskHandler::plan_attempt(&chunk, gone.clone()) {
        ConversionStep::Abandon { payload } => assert!(payload.replacement_strip.is_none()),
        _ => panic!("the replacement is let go"),
    }
    chunk.strips.push(replacement());
    assert!(installed(&chunk, &gone));
    assert!(matches!(
        MirrorToEcTaskHandler::plan_attempt(&chunk, gone),
        ConversionStep::Installed
    ));
}

#[test]
fn marked_copies_are_not_read() {
    assert_eq!(
        readable_segments(&[segment(1), segment(2)], &[segment(1)]),
        vec![segment(2)]
    );
    let mut source = mirror(0);
    source.unavailable_segments = vec![segment(1)];
    assert_eq!(MirrorToEcTaskHandler::read_order(&source).unwrap(), vec![segment(2)]);
    assert!(MirrorToEcTaskHandler::read_order(&replacement()).is_err());
}

#[test]
fn conversion_runs_to_the_end() {
    let chunk = sealed();
    let (mut attempt, first) = ConversionAttempt::new(OP, payload(&chunk));
    assert!(matches!(first, ConversionAction::Query(ID)));
    match attempt.step(ConversionEvent::Loaded(chunk.clone())) {
        ConversionAction::Allocate { data_num, code_num, old_strips, .. } => {
            assert_eq!((data_num, code_num, old_strips.len()), (2, 1, 2));
        }
        _ => panic!("nothing is allocated"),
    }
    match attempt.step(ConversionEvent::Allocated(replacement())) {
        ConversionAction::Store(stored) => assert_eq!(stored.phase, MirrorToEcPhase::Allocated),
        _ => panic!("the allocation is recorded"),
    }
    assert!(matches!(
        attempt.step(ConversionEvent::Performed),
        ConversionAction::Throttle(bytes) if bytes == 20 * 1024
    ));
    match attempt.step(ConversionEvent::Performed) {
        ConversionAction::Read { strip_index, segment: copy, unit_bytes } => {
            assert_eq!((strip_index, copy, unit_bytes), (0, segment(1), 1024));
        }
        _ => panic!("the first copy is read"),
    }
    assert!(matches!(attempt.step(ConversionEvent::Encoded(3)), ConversionAction::Ignore));
    match attempt.step(ConversionEvent::Failed("bad disk".to_string())) {
        ConversionAction::Read { segment: copy, .. } => assert_eq!(copy, segment(2)),
        _ => panic!("the second copy is read"),
    }
    match attempt.step(ConversionEvent::Performed) {
        ConversionAction::Read { strip_index, segment: copy, .. } => {
            assert_eq!((strip_index, copy), (1, segment(11)));
        }
        _ => panic!("the second strip is read"),
    }
    assert!(matches!(
        attempt.step(ConversionEvent::Performed),
        ConversionAction::Encode { data_num: 2, code_num: 1 }
    ));
    match attempt.step(ConversionEvent::Encoded(3)) {
        ConversionAction::Write { segments, unit_bytes } => {
            assert_eq!(segments, vec![segment(101), segment(102), segment(103)]);
            assert_eq!(unit_bytes, 1024);
        }
        _ => panic!("the shards are written"),
    }
    match attempt.step(ConversionEvent::Performed) {
        ConversionAction::Store(stored) => assert_eq!(stored.phase, MirrorToEcPhase::Durable),
        _ => panic!("the shards are durable"),
    }
    match attempt.step(ConversionEvent::Performed) {
        ConversionAction::Replace(exchange) => {
            assert_eq!(exchange.operation_id, OP);
            assert_eq!(exchange.old_strips.len(), 2);
        }
        _ => panic!("the source is replaced"),
    }
    assert!(matches!(attempt.step(ConversionEvent::Performed), ConversionAction::Finish));
    assert!(matches!(attempt.step(ConversionEvent::Performed), ConversionAction::Ignore));
}

#[test]
fn unreadable_source_lets_the_replacement_go() {
    let chunk = sealed();
    let mut begun = payload(&chunk);
    begun.replacement_strip = Some(replacement());
    let (mut attempt, _) = ConversionAttempt::new(OP, begun);
    attempt.step(ConversionEvent::Loaded(chunk));
    attempt.step(ConversionEvent::Performed);
    attempt.step(ConversionEvent::Failed("one".to_string()));
    match attempt.step(ConversionEvent::Failed("two".to_string())) {
        ConversionAction::Store(stored) => {
            assert!(stored.replacement_strip.is_none());
            assert_eq!(stored.phase, MirrorToEcPhase::Discovered);
        }
        _ => panic!("the replacement is let go"),
    }
    match attempt.step(ConversionEvent::Performed) {
        ConversionAction::Fail(error) => assert_eq!(error.message(), "two"),
        _ => panic!("the attempt fails"),
    }
}

#[test]
fn wrong_shard_count_is_a_conflict() {
    let chunk = sealed();
    let mut begun = payload(&chunk);
    begun.replacement_strip = Some(replacement());
    let (mut attempt, _) = ConversionAttempt::new(OP, begun);
    attempt.step(ConversionEvent::Loaded(chunk));
    attempt.step(ConversionEvent::Performed);
    attempt.step(ConversionEvent::Performed);
    attempt.step(ConversionEvent::Performed);
    assert!(matches!(attempt.step(ConversionEvent::Encoded(4)), ConversionAction::Store(_)));
    assert!(matches!(
        attempt.step(ConversionEvent::Performed),
        ConversionAction::Fail(ConversionRunError::Conflict)
    ));
}

#[test]
fn conflict_fails_the_task() {
    assert!(matches!(MirrorToEcTaskHandler::outcome(Ok(())), TaskOutcome::Complete));
    assert!(matches!(
        MirrorToEcTaskHandler::outcome(Err(ConversionRunError::Conflict)),
        TaskOutcome::Fail { error_code: 10, .. }
    ));
    assert!(matches!(
        MirrorToEcTaskHandler::outcome(Err(ConversionRunError::Retry("x".to_string()))),
        TaskOutcome::Retry { delay_ms: 100, error_code: 11, .. }
    ));
    assert!(matches!(
        MirrorToEcTaskHandler::stopped(),
        TaskOutcome::Retry { error_code: 12, .. }
    ));
}

#[test]
fn reservation_scan_starts_over() {
    assert_eq!(reservation_cursor_after(Some((ID, OP)), &[]), None);
}

#[test]
fn expired_reservations_are_recovered() {
    let (_, group) = LifecycleHandler::reserve_strip_group(
        &LifecycleHandler::new()
            .allocate_chunk(ID, 0, vec![mirror(0)], 1, ChunkType::Repo, 5, 100, 1)
            .unwrap(),
        &ID,
        &OP,
        crowdb_chunkdb::lifecycle::reservation::ReservationFence {
            expected_modify_ts: 1,
            writer_epoch: 5,
            lease_generation: 1,
            lease_ms: 100,
        },
        crowdb_chunkdb::lifecycle::reservation::ReserveGroupSpec {
            strip_size: 4,
            strip_count: 1,
            copy_count: 2,
            conversion_data_num: 0,
            conversion_code_num: 0,
        },
        vec![mirror(1)],
        Vec::new(),
        Vec::new(),
        1_000,
    )
    .unwrap();
    assert_eq!(recovery_of(&group, 1_000), None);
    assert_eq!(recovery_of(&group, 5_000), Some((ID, OP)));
    assert_eq!(reservation_cursor_after(None, &[group]), Some((ID, OP)));
}
