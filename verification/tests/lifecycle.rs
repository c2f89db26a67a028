//! The life of a chunk: allocation, writing, sealing, replacement and deletion.
use crowdb_chunkdb::lifecycle::error::LifecycleError;
use crowdb_chunkdb::lifecycle::handler::{
    drop_referenced, is_batch, scan_cursor_after, AppendPlan, DeleteStep, LifecycleHandler,
    ReconcileStep, ReplaceOutcome,
};
use crowdb_chunkdb::range_guard::RangeGuard;
use crowdb_chunkdb::storage::StoreError;
use crowdb_chunkdb::allocator::StripAllocType;
use crowdb_chunkdb::types::{
    Chunk, ChunkId, ChunkState, ChunkStrip, ChunkType, DiskId, EcState, EcStrip,
    FailureDomainPriority, MirrorStrip, Segment, Strip, StripCleanupIntent, StripType,
};

const ID: ChunkId = ChunkId { high: 1, low: 2 };
const OP: ChunkId = ChunkId { high: 9, low: 9 };

fn segment(disk: u64, offset: u64) -> Segment {
    Segment {
        disk_id: Some(DiskId { high: 0, low: disk }),
        owner_chunk: Some(ID),
        zone_index: 0,
        unit_offset: offset,
        unit_count: 4,
        allocation_ts: 1,
    }
}

fn strip(sequence: u32, offset: u32, body: Strip) -> ChunkStrip {
    let strip_type = match body {
        Strip::MirrorStrip(_) => StripType::Mirror,
        Strip::EcStrip(_) => StripType::Ec,
    };
    ChunkStrip {
        chunk_offset: offset,
        strip_sequence: sequence,
        unit_kb: 1,
        capacity: 4,
        create_ts_ms: 1,
        sealed_ts_ms: 0,
        sealed_length: 0,
        strip_type,
        strip: Some(body),
        usage_bitmap: Vec::new(),
        unavailable_segments: Vec::new(),
        placement_repair_required: false,
        placement_assessment: None,
        placement_priority: FailureDomainPriority::RackFirst,
    }
}

fn mirror(sequence: u32, offset: u32) -> ChunkStrip {
    let at = u64::from(sequence) * 100;
    strip(
        sequence,
        offset,
        Strip::MirrorStrip(MirrorStrip {
            segments: vec![segment(1, at), segment(2, at), segment(3, at)],
        }),
    )
}

fn ec(sequence: u32, offset: u32) -> ChunkStrip {
    let at = u64::from(sequence) * 100;
    strip(
        sequence,
        offset,
        Strip::EcStrip(EcStrip {
            data_num: 2,
            code_num: 1,
            ec_state: EcState::NoParity,
            segments: vec![
                Segment { unit_count: 2, ..segment(4, at) },
                Segment { unit_count: 2, ..segment(5, at) },
                Segment { unit_count: 2, ..segment(6, at) },
            ],
        }),
    )
}

fn chunk_of(strips: Vec<ChunkStrip>) -> Chunk {
    LifecycleHandler::new()
        .allocate_chunk(ID, 0, strips, 2, ChunkType::Repo, 0, 0, 1_000)
        .unwrap()
}

fn two_mirrors() -> Chunk {
    chunk_of(vec![mirror(0, 0), mirror(1, 0)])
}

#[test]
fn new_chunk_is_laid_out_without_gaps() {
    let chunk = two_mirrors();
    assert_eq!(chunk.id, Some(ID));
    assert_eq!(chunk.state, ChunkState::Active);
    assert_eq!(chunk.modify_ts, 1);
    assert_eq!(chunk.capacity, 8);
    assert_eq!(chunk.strips[0].chunk_offset, 0);
    assert_eq!(chunk.strips[1].chunk_offset, 4);
    assert_eq!(chunk.next_strip_sequence, 2);
    assert_eq!(chunk.writer_lease_deadline_ms, 0);
}

#[test]
fn shared_writer_needs_a_lease() {
    let handler = LifecycleHandler::new();
    let error = handler
        .allocate_chunk(ID, 0, vec![mirror(0, 0)], 1, ChunkType::Wal, 3, 0, 10)
        .unwrap_err();
    assert!(error.message().contains("writer_lease_ms must be nonzero for a shared writer"));
    let chunk = handler
        .allocate_chunk(ID, 0, vec![mirror(0, 0)], 1, ChunkType::Wal, 3, 50, 10)
        .unwrap();
    assert_eq!(chunk.writer_lease_deadline_ms, 60);
}

#[test]
fn foreign_bucket_is_refused_everywhere() {
    let handler = LifecycleHandler::new().with_range_guard(RangeGuard::new(false));
    let chunk = two_mirrors();
    assert!(matches!(handler.check_range(7), Err(LifecycleError::NotMyRange { bucket: 7 })));
    assert!(matches!(
        handler.allocate_chunk(ID, 7, vec![mirror(0, 0)], 1, ChunkType::Repo, 0, 0, 1),
        Err(LifecycleError::NotMyRange { bucket: 7 })
    ));
    assert!(matches!(
        handler.seal_chunk(&chunk, 7, 1, 1),
        Err(LifecycleError::NotMyRange { bucket: 7 })
    ));
    assert!(matches!(
        handler.delete_chunk(&chunk, 7),
        Err(LifecycleError::NotMyRange { bucket: 7 })
    ));
}

#[test]
fn existing_chunk_is_not_created_again() {
    assert!(matches!(
        LifecycleHandler::check_absent(Ok(two_mirrors())),
        Err(LifecycleError::ChunkAlreadyExists)
    ));
    assert!(LifecycleHandler::check_absent(Err(StoreError::ChunkNotFound)).is_ok());
    assert!(matches!(
        LifecycleHandler::check_absent(Err(StoreError::Conflict)),
        Err(LifecycleError::Storage(StoreError::Conflict))
    ));
    assert!(matches!(
        LifecycleHandler::query_error(StoreError::ChunkNotFound),
        LifecycleError::ChunkNotFound
    ));
}

#[test]
fn allocation_counts_units() {
    let spec = LifecycleHandler::allocation_spec(64, 16 * 1024, 3, StripType::Mirror, 0, 0, 0);
    assert_eq!(spec.unit_count, 4);
    assert_eq!(spec.strip_count, 3);
    assert_eq!(spec.strip_type, StripAllocType::Mirror { copy_count: 3 });
    let small = LifecycleHandler::allocation_spec(8, 16 * 1024, 1, StripType::Ec, 4, 2, 0);
    assert_eq!(small.unit_count, 1);
    assert_eq!(small.strip_type, StripAllocType::Ec { data_num: 4, code_num: 2 });
}

fn shared(cursor: u64) -> Chunk {
    let mut chunk = LifecycleHandler::new()
        .allocate_chunk(
            ID,
            0,
            vec![mirror(0, 0), mirror(1, 0)],
            2,
            ChunkType::Repo,
            5,
            100,
            1_000,
        )
        .unwrap();
    chunk.acknowledged_cursor = cursor;
    chunk
}

#[test]
fn acknowledged_write_moves_the_cursor() {
    let handler = LifecycleHandler::new();
    let chunk = shared(0);
    let next = handler.advance_chunk_write(&chunk, 0, 5, 1, 4096, Some(0), 200, 2_000).unwrap();
    assert_eq!(next.acknowledged_cursor, 4096);
    assert_eq!(next.modify_ts, 2);
    assert_eq!(next.closed_strip_sequence, Some(0));
    assert_eq!(next.strips[0].sealed_ts_ms, 2_000);
    assert_eq!(next.strips[0].sealed_length, 4);
    assert_eq!(next.strips[1].sealed_ts_ms, 0);
    assert_eq!(next.writer_lease_deadline_ms, 2_200);
}

#[test]
fn write_is_fenced() {
    let handler = LifecycleHandler::new();
    let chunk = shared(10);
    let cases: Vec<(LifecycleError, &str)> = vec![
        (
            handler.advance_chunk_write(&chunk, 0, 0, 1, 20, None, 1, 1).unwrap_err(),
            "writer epoch and lease must be nonzero",
        ),
        (
            handler.advance_chunk_write(&chunk, 0, 5, 1, 10, None, 1, 1).unwrap_err(),
            "acknowledged cursor 10 must advance beyond 10 within capacity 8192",
        ),
        (
            handler.advance_chunk_write(&chunk, 0, 5, 1, 8193, None, 1, 1).unwrap_err(),
            "acknowledged cursor 8193 must advance beyond 10 within capacity 8192",
        ),
        (
            handler.advance_chunk_write(&chunk, 0, 5, 1, 4095, Some(0), 1, 1).unwrap_err(),
            "closed strip extends beyond acknowledged cursor",
        ),
    ];
    for (error, message) in cases {
        assert!(error.message().contains(message), "{}", error.message());
    }
    assert!(matches!(
        handler.advance_chunk_write(&chunk, 0, 6, 1, 20, None, 1, 1),
        Err(LifecycleError::StateConflict)
    ));
    assert!(matches!(
        handler.advance_chunk_write(&chunk, 0, 5, 2, 20, None, 1, 1),
        Err(LifecycleError::StateConflict)
    ));
    assert!(matches!(
        handler.advance_chunk_write(&chunk, 0, 5, 1, 20, Some(8), 1, 1),
        Err(LifecycleError::StripIndexOutOfRange { index: 8, len: 2 })
    ));
    let mut closed = shared(10);
    closed.closed_strip_sequence = Some(1);
    let error =
        handler.advance_chunk_write(&closed, 0, 5, 1, 8192, Some(0), 1, 1).unwrap_err();
    assert!(error.message().contains("closed strip sequence cannot move backward"));
}

#[test]
fn persist_waits_longer_then_gives_up() {
    assert_eq!(LifecycleHandler::persist_backoff_ms(0), Some(1));
    assert_eq!(LifecycleHandler::persist_backoff_ms(5), Some(32));
    assert_eq!(LifecycleHandler::persist_backoff_ms(6), Some(50));
    assert_eq!(LifecycleHandler::persist_backoff_ms(98), Some(50));
    assert_eq!(LifecycleHandler::persist_backoff_ms(99), None);
}

#[test]
fn stale_append_returns_the_chunk() {
    let handler = LifecycleHandler::new();
    let chunk = two_mirrors();
    match handler.plan_append(&chunk, 0, 99, 1, StripType::Mirror, 0, 0, 2, 4).unwrap() {
        AppendPlan::Stale(outcome) => {
            assert_eq!(outcome.modify_ts, 1);
            assert!(outcome.strips.is_empty());
            assert!(outcome.chunk.unwrap().same(&chunk));
        }
        AppendPlan::Allocate(_) => panic!("stale append was allocated"),
    }
}

#[test]
fn append_goes_on_behind_the_last_strip() {
    let handler = LifecycleHandler::new();
    let chunk = two_mirrors();
    match handler.plan_append(&chunk, 0, 1, 1, StripType::Mirror, 0, 0, 2, 4).unwrap() {
        AppendPlan::Allocate(spec) => {
            assert_eq!(spec.start_sequence, 2);
            assert_eq!(spec.strip_type, StripAllocType::Mirror { copy_count: 2 });
        }
        AppendPlan::Stale(_) => panic!("append was stale"),
    }
    let (next, outcome) = LifecycleHandler::append_chunk(&chunk, vec![mirror(2, 0)], 1);
    assert_eq!(next.capacity, 12);
    assert_eq!(next.strips[2].chunk_offset, 8);
    assert_eq!(next.next_strip_sequence, 3);
    assert_eq!(next.modify_ts, 2);
    assert_eq!(outcome.modify_ts, 2);
    assert_eq!(outcome.strips.len(), 1);
    assert!(outcome.chunk.is_none());
}

#[test]
fn append_past_the_last_sequence_is_refused() {
    let mut chunk = two_mirrors();
    chunk.next_strip_sequence = u32::MAX;
    let error = LifecycleHandler::new()
        .plan_append(&chunk, 0, 1, 1, StripType::Mirror, 0, 0, 2, 4)
        .unwrap_err();
    assert!(error.message().contains("chunk strip sequence space exhausted"));
}

#[test]
fn seal_is_final() {
    let handler = LifecycleHandler::new();
    let sealed = handler.seal_chunk(&two_mirrors(), 0, 6, 5_000).unwrap();
    assert_eq!(sealed.state, ChunkState::Sealed);
    assert_eq!(sealed.sealed_length, 6);
    assert_eq!(sealed.sealed_ts_ms, 5_000);
    assert_eq!(sealed.modify_ts, 2);
    assert!(matches!(
        handler.seal_chunk(&sealed, 0, 6, 6_000),
        Err(LifecycleError::InvalidStateTransition(_))
    ));
    assert!(matches!(
        handler.plan_append(&sealed, 0, 2, 1, StripType::Mirror, 0, 0, 2, 4),
        Err(LifecycleError::InvalidStateTransition(_))
    ));
}

#[test]
fn seal_beyond_capacity_is_refused() {
    let error = LifecycleHandler::new().seal_chunk(&two_mirrors(), 0, 9, 1).unwrap_err();
    assert!(error.message().contains("seal_length 9 exceeds chunk capacity 8"));
}

#[test]
fn seal_marks_written_ec_strips() {
    let chunk = chunk_of(vec![ec(0, 0), ec(1, 0)]);
    let sealed = LifecycleHandler::new().seal_chunk(&chunk, 0, 4, 77).unwrap();
    match &sealed.strips[0].strip {
        Some(Strip::EcStrip(body)) => assert_eq!(body.ec_state, EcState::Parity),
        _ => panic!("layout changed"),
    }
    assert_eq!(sealed.strips[0].sealed_length, 4);
    match &sealed.strips[1].strip {
        Some(Strip::EcStrip(body)) => assert_eq!(body.ec_state, EcState::NoParity),
        _ => panic!("layout changed"),
    }
}

#[test]
fn expired_writer_is_sealed_at_its_cursor() {
    let chunk = shared(5_000);
    assert!(LifecycleHandler::seal_expired_writer_chunk(&chunk, 1_100 - 1).is_none());
    let sealed = LifecycleHandler::seal_expired_writer_chunk(&chunk, 1_101).unwrap();
    assert_eq!(sealed.state, ChunkState::Sealed);
    assert_eq!(sealed.sealed_length, 5);
    assert_eq!(sealed.strips[0].sealed_length, 4);
    assert_eq!(sealed.strips[1].sealed_length, 1);
    assert!(LifecycleHandler::seal_expired_writer_chunk(&two_mirrors(), u64::MAX).is_none());
}

#[test]
fn deletion_can_be_tried_again() {
    let handler = LifecycleHandler::new();
    let chunk = two_mirrors();
    match handler.delete_chunk(&chunk, 0).unwrap() {
        DeleteStep::Publish { tombstone, segments, emptied } => {
            assert_eq!(tombstone.state, ChunkState::Deleted);
            assert_eq!(tombstone.modify_ts, 2);
            assert_eq!(segments.len(), 6);
            assert!(emptied.strips.is_empty());
            match handler.delete_chunk(&tombstone, 0).unwrap() {
                DeleteStep::Free { segments: again, emptied: rest } => {
                    assert_eq!(again, segments);
                    assert!(rest.same(&emptied));
                }
                _ => panic!("tombstone with strips"),
            }
            assert!(matches!(handler.delete_chunk(&emptied, 0).unwrap(), DeleteStep::Done(_)));
        }
        _ => panic!("first deletion publishes a tombstone"),
    }
}

#[test]
fn unfinished_chunk_is_not_deleted() {
    let mut chunk = two_mirrors();
    chunk.state = ChunkState::Init;
    let error = LifecycleHandler::new().delete_chunk(&chunk, 0).unwrap_err();
    assert!(matches!(error, LifecycleError::InvalidStateTransition(_)));
}

#[test]
fn range_deletion_keeps_the_rest() {
    let handler = LifecycleHandler::new();
    let chunk = two_mirrors();
    let deleted = handler.delete_chunk_range(&chunk, 0, 4, 1).unwrap();
    assert_eq!(deleted.chunk.strips.len(), 1);
    assert_eq!(deleted.chunk.strips[0].strip_sequence, 0);
    assert_eq!(deleted.chunk.capacity, 4);
    assert_eq!(deleted.segments.len(), 3);
    assert!(handler
        .delete_chunk_range(&chunk, 0, 4, 0)
        .unwrap_err()
        .message()
        .contains("delete range size must be non-zero"));
    assert!(handler
        .delete_chunk_range(&chunk, 0, u32::MAX, 1)
        .unwrap_err()
        .message()
        .contains("delete range overflows u32"));
}

fn replacement() -> ChunkStrip {
    ec(0, 0)
}

#[test]
fn replacement_retires_old_segments() {
    let handler = LifecycleHandler::new().with_layout_validity(500);
    let chunk = two_mirrors();
    let old = vec![chunk.strips[0].clone()];
    let new = vec![replacement()];
    match handler.replace_chunk_strip_range(&chunk, &ID, 0, 1, 0, &old, &new, OP, 10_000).unwrap() {
        ReplaceOutcome::Publish { commit, chunk: next } => {
            assert_eq!(commit.len(), 3);
            assert_eq!(next.modify_ts, 2);
            assert_eq!(next.capacity, 8);
            assert_eq!(next.last_strip_replacement, Some(OP));
            assert_eq!(next.cleanup_intents.len(), 1);
            assert_eq!(next.cleanup_intents[0].retired_segments, old[0].mirror_segments());
            assert_eq!(next.cleanup_intents[0].not_before_ms, 10_500);
            match handler
                .replace_chunk_strip_range(&next, &ID, 0, 1, 0, &old, &new, OP, 11_000)
                .unwrap()
            {
                ReplaceOutcome::Applied(found) => assert!(found.same(&next)),
                ReplaceOutcome::Publish { .. } => panic!("retry was applied twice"),
            }
            let other = ChunkId { high: 8, low: 8 };
            assert!(matches!(
                handler.replace_chunk_strip_range(&next, &ID, 0, 1, 0, &old, &new, other, 1),
                Err(LifecycleError::StateConflict)
            ));
        }
        ReplaceOutcome::Applied(_) => panic!("nothing was applied before"),
    }
}

#[test]
fn replacement_is_fenced() {
    let handler = LifecycleHandler::new();
    let chunk = two_mirrors();
    let old = vec![chunk.strips[0].clone()];
    let new = vec![replacement()];
    assert!(handler
        .replace_chunk_strip_range(&chunk, &ID, 0, 1, 0, &[], &new, OP, 1)
        .unwrap_err()
        .message()
        .contains("strip replacement ranges must be non-empty"));
    assert!(matches!(
        handler.replace_chunk_strip_range(&chunk, &ID, 0, 1, 2, &old, &new, OP, 1),
        Err(LifecycleError::StripIndexOutOfRange { index: 2, len: 2 })
    ));
    assert!(matches!(
        handler.replace_chunk_strip_range(&chunk, &ID, 0, 5, 0, &old, &new, OP, 1),
        Err(LifecycleError::StateConflict)
    ));
    assert!(matches!(
        handler.replace_chunk_strip_range(&chunk, &ID, 0, 1, 1, &old, &new, OP, 1),
        Err(LifecycleError::StateConflict)
    ));
    let mut wide = replacement();
    wide.capacity = 5;
    assert!(matches!(
        handler.replace_chunk_strip_range(&chunk, &ID, 0, 1, 0, &old, &[wide], OP, 1),
        Err(LifecycleError::InvalidRequest(_))
    ));
    let mut taken = replacement();
    taken.strip_sequence = 1;
    assert!(handler
        .replace_chunk_strip_range(&chunk, &ID, 0, 1, 0, &old, &[taken], OP, 1)
        .is_err());
    let mut deleted = two_mirrors();
    deleted.state = ChunkState::Deleted;
    assert!(matches!(
        handler.replace_chunk_strip_range(&deleted, &ID, 0, 1, 0, &old, &new, OP, 1),
        Err(LifecycleError::InvalidStateTransition(_))
    ));
}

#[test]
fn strip_update_out_of_range_is_refused() {
    let handler = LifecycleHandler::new();
    let chunk = two_mirrors();
    assert!(matches!(
        handler.update_chunk_strip(&chunk, &ID, 0, 2, replacement(), 1),
        Err(LifecycleError::StripIndexOutOfRange { index: 2, len: 2 })
    ));
    match handler.update_chunk_strip(&chunk, &ID, 0, 0, replacement(), 1).unwrap() {
        ReplaceOutcome::Publish { chunk: next, .. } => {
            assert_eq!(next.last_strip_replacement, Some(ChunkId { high: 1 ^ 1, low: 2 }));
        }
        ReplaceOutcome::Applied(_) => panic!("nothing was applied before"),
    }
}

#[test]
fn used_segment_is_not_discarded() {
    let handler = LifecycleHandler::new();
    let chunk = two_mirrors();
    assert!(matches!(
        handler.discard_replacement_segment(&chunk, &ID, 0, segment(1, 0)),
        Err(LifecycleError::StateConflict)
    ));
    assert!(handler.discard_replacement_segment(&chunk, &ID, 0, segment(1, 9)).is_ok());
    let mut foreign = segment(1, 9);
    foreign.owner_chunk = None;
    assert!(handler
        .discard_replacement_segment(&chunk, &ID, 0, foreign)
        .unwrap_err()
        .message()
        .contains("discarded replacement does not belong to chunk"));
}

#[test]
fn cleanup_waits_and_spares_used_segments() {
    let mut chunk = two_mirrors();
    chunk.cleanup_intents = vec![
        StripCleanupIntent {
            operation_id: Some(OP),
            retired_segments: vec![segment(1, 0), segment(9, 9)],
            not_before_ms: 50,
        },
        StripCleanupIntent {
            operation_id: Some(OP),
            retired_segments: vec![segment(8, 8)],
            not_before_ms: 500,
        },
    ];
    let plan = LifecycleHandler::reconcile_chunk(&chunk, 100);
    assert_eq!(plan.frees, vec![vec![segment(9, 9)]]);
    let cleaned = plan.cleaned.unwrap();
    assert_eq!(cleaned.cleanup_intents.len(), 1);
    assert_eq!(cleaned.cleanup_intents[0].not_before_ms, 500);
    assert!(matches!(plan.step, ReconcileStep::Nothing));
    assert_eq!(drop_referenced(&[segment(1, 0)], &[segment(1, 0)]), Vec::new());
}

#[test]
fn unfinished_and_deleted_chunks_are_reconciled() {
    let mut chunk = two_mirrors();
    chunk.state = ChunkState::Init;
    match LifecycleHandler::reconcile_chunk(&chunk, 1).step {
        ReconcileStep::Activate { segments, chunk: next } => {
            assert_eq!(segments.len(), 6);
            assert_eq!(next.state, ChunkState::Active);
        }
        _ => panic!("pending chunk is activated"),
    }
    chunk.state = ChunkState::Deleted;
    match LifecycleHandler::reconcile_chunk(&chunk, 1).step {
        ReconcileStep::Clear { segments, chunk: next } => {
            assert_eq!(segments.len(), 6);
            assert!(next.strips.is_empty());
        }
        _ => panic!("deleted chunk is cleared"),
    }
}

#[test]
fn scans_restart_after_a_short_page() {
    let chunk = two_mirrors();
    assert_eq!(scan_cursor_after(None, &[chunk.clone()], 1), Some(ID));
    assert_eq!(scan_cursor_after(Some(ID), &[chunk.clone()], 2), None);
    assert_eq!(scan_cursor_after(Some(ID), &[], 2), None);
}

#[test]
fn batches_are_numbered_one_after_the_other() {
    let strips = vec![mirror(4, 0), mirror(5, 0)];
    assert!(is_batch(&strips, 4, 2));
    assert!(!is_batch(&strips, 4, 3));
    assert!(!is_batch(&strips, 3, 2));
    assert!(!is_batch(&[mirror(4, 0), mirror(6, 0)], 4, 2));
    assert!(is_batch(&[], 9, 0));
}
