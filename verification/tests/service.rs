//! Requests, replies and the forms in which records are sent.
use crowdb_chunkdb::conversion::coordinator::PreparedConversion;
use crowdb_chunkdb::conversion::ConversionError;
use crowdb_chunkdb::lifecycle::error::LifecycleError;
use crowdb_chunkdb::lifecycle::handler::{AppendChunkOutcome, LifecycleHandler};
use crowdb_chunkdb::lifecycle::reservation::StripReservationAction;
use crowdb_chunkdb::lifecycle::state::{ExpectedState, StateTransitionError};
use crowdb_chunkdb::relocation::{RelocationAdmissionError, RelocationHandoffDisposition};
use crowdb_chunkdb::service::reply::{
    append_reply, build_chunk_response, build_delete_range_response,
    build_discard_replacement_response, build_list_response, build_query_response, chunk_reply,
    conversion_chunk_reply, conversion_count_reply, handoff_refusal_reply, handoff_reply,
    invalid_request_reply, map_conversion_error, map_error, owner_refusal_reply, owner_reply,
    prepared_reply, query_refusal, reply_head, segment_reply, RetCode,
};
use crowdb_chunkdb::service::request::{
    closed_sequence, parse_allocate, parse_allocate_replacement, parse_append, parse_mutate,
    parse_replace_range, parse_reserve, parse_segment_request, parse_update_strip,
    require_chunk_id, RequestFault,
};
use crowdb_chunkdb::service::wire::{
    build_chunk, build_chunk_strip, build_segment, fb_chunk_state, parse_chunk_strip,
    parse_segment, WireAction, WireBody, WireChunkState, WireChunkType, WireEcState, WireStripType,
};
use crowdb_chunkdb::storage::StoreError;
use crowdb_chunkdb::task::owner::{SegmentOwnerDisposition, SegmentOwnerError};
use crowdb_chunkdb::task::store::TaskStoreError;
use crowdb_chunkdb::types::{
    Chunk, ChunkId, ChunkState, ChunkStrip, ChunkType, DiskId, EcState, EcStrip,
    FailureDomainPriority, MirrorStrip, Segment, Strip, StripCleanupIntent, StripType,
};

const ID: ChunkId = ChunkId { high: 1, low: 2 };
const OTHER: ChunkId = ChunkId { high: 3, low: 4 };

fn segment(disk: u64) -> Segment {
    Segment {
        disk_id: Some(DiskId { high: 5, low: disk }),
        owner_chunk: Some(ID),
        zone_index: 6,
        unit_offset: 7,
        unit_count: 4,
        allocation_ts: 8,
    }
}

fn strip(body: Strip) -> ChunkStrip {
    let strip_type = match body {
        Strip::MirrorStrip(_) => StripType::Mirror,
        Strip::EcStrip(_) => StripType::Ec,
    };
    ChunkStrip {
        chunk_offset: 0,
        strip_sequence: 0,
        unit_kb: 1,
        capacity: 4,
        create_ts_ms: 1,
        sealed_ts_ms: 2,
        sealed_length: 3,
        strip_type,
        strip: Some(body),
        usage_bitmap: vec![1, 2],
        unavailable_segments: vec![segment(1)],
        placement_repair_required: false,
        placement_assessment: None,
        placement_priority: FailureDomainPriority::RackFirst,
    }
}

fn mirror() -> ChunkStrip {
    strip(Strip::MirrorStrip(MirrorStrip { segments: vec![segment(1), segment(2)] }))
}

fn ec() -> ChunkStrip {
    strip(Strip::EcStrip(EcStrip {
        data_num: 1,
        code_num: 1,
        ec_state: EcState::Parity,
        segments: vec![segment(1), segment(2)],
    }))
}

fn chunk() -> Chunk {
    let mut second = ec();
    second.strip_sequence = 1;
    let mut chunk = LifecycleHandler::new()
        .allocate_chunk(ID, 0, vec![mirror(), second], 2, ChunkType::Wal, 0, 0, 1)
        .unwrap();
    chunk.cleanup_intents = vec![StripCleanupIntent {
        operation_id: Some(OTHER),
        retired_segments: vec![segment(9)],
        not_before_ms: 11,
    }];
    chunk
}

#[test]
fn strips_come_back_as_they_were_sent() {
    for original in [mirror(), ec()] {
        let back = parse_chunk_strip(&build_chunk_strip(&original)).unwrap();
        assert!(back.same(&original));
    }
    assert_eq!(parse_segment(&build_segment(&segment(3))), segment(3));
}

#[test]
fn unreadable_strips_are_refused() {
    let mut sent = build_chunk_strip(&mirror());
    sent.body = WireBody::Missing;
    assert!(parse_chunk_strip(&sent).is_none());
    let mut sent = build_chunk_strip(&mirror());
    sent.strip_type = WireStripType::Unknown(9);
    assert!(parse_chunk_strip(&sent).is_none());
    let mut sent = build_chunk_strip(&ec());
    if let WireBody::Ec { ec_state, .. } = &mut sent.body {
        *ec_state = WireEcState::Unknown(9);
    }
    assert!(parse_chunk_strip(&sent).is_none());
}

#[test]
fn chunks_are_sent_whole() {
    let sent = build_chunk(&chunk());
    assert_eq!(sent.id, ID);
    assert_eq!(sent.state, WireChunkState::Active);
    assert_eq!(sent.chunk_type, WireChunkType::Wal);
    assert_eq!(sent.closed_strip_sequence, u32::MAX);
    assert_eq!(sent.strips.unwrap().len(), 2);
    assert_eq!(sent.cleanup_intents.unwrap()[0].retired_segments.len(), 1);
    let mut bare = chunk();
    bare.strips = Vec::new();
    bare.cleanup_intents = Vec::new();
    let sent = build_chunk(&bare);
    assert!(sent.strips.is_none());
    assert!(sent.cleanup_intents.is_none());
    assert_eq!(fb_chunk_state(ChunkState::Deleted), WireChunkState::Deleted);
}

#[test]
fn errors_have_codes() {
    let cases = vec![
        (
            LifecycleError::InvalidStateTransition(StateTransitionError {
                from: ChunkState::Sealed,
                expected: ExpectedState::Active,
            }),
            RetCode::FailedPrecondition,
        ),
        (LifecycleError::ChunkNotFound, RetCode::NotFound),
        (LifecycleError::ChunkAlreadyExists, RetCode::AlreadyExists),
        (LifecycleError::StateConflict, RetCode::Aborted),
        (LifecycleError::Storage(StoreError::Conflict), RetCode::Internal),
        (LifecycleError::Commit("x".to_string()), RetCode::Internal),
        (LifecycleError::Cleanup("x".to_string()), RetCode::Internal),
        (LifecycleError::InvalidRequest("x".to_string()), RetCode::InvalidArgument),
        (LifecycleError::LockBusy, RetCode::Unavailable),
        (LifecycleError::LockTimeout, RetCode::Unavailable),
        (
            LifecycleError::StripIndexOutOfRange { index: 1, len: 0 },
            RetCode::StripIndexOutOfRange,
        ),
    ];
    for (error, code) in cases {
        let refusal = map_error(&error);
        assert_eq!(refusal.code, code);
        assert_eq!(refusal.message, error.message());
        assert_eq!((refusal.range_start, refusal.range_end), (0, 0));
    }
    let foreign = map_error(&LifecycleError::NotMyRange { bucket: 77 });
    assert_eq!(foreign.code, RetCode::NotMyRange);
    assert_eq!((foreign.range_start, foreign.range_end), (77, 77));
    let query = query_refusal(&LifecycleError::NotMyRange { bucket: 77 });
    assert_eq!((query.range_start, query.range_end), (0, 0));
}

#[test]
fn conversion_errors_have_codes() {
    let cases = vec![
        (ConversionError::Lifecycle(LifecycleError::ChunkNotFound), RetCode::NotFound),
        (ConversionError::Conflict, RetCode::Aborted),
        (ConversionError::StaleClaim, RetCode::FailedPrecondition),
        (ConversionError::TaskStore(TaskStoreError::KeyMismatch), RetCode::Internal),
        (ConversionError::Payload("x".to_string()), RetCode::Internal),
    ];
    for (error, code) in cases {
        assert_eq!(map_conversion_error(&error).code, code);
    }
}

#[test]
fn replies_carry_chunks_on_success_only() {
    let reply = chunk_reply(4, 5, Ok(chunk()));
    assert_eq!((reply.head.id, reply.head.rpc_create_nano), (4, 5));
    assert_eq!(reply.head.ret_code, RetCode::Success);
    assert!(reply.head.error_msg.is_none());
    assert_eq!(reply.chunk.unwrap().id, ID);
    let refused = chunk_reply(4, 5, Err(LifecycleError::NotMyRange { bucket: 3 }));
    assert_eq!(refused.head.range_end, 3);
    assert!(refused.chunk.is_none());
    assert!(refused.head.error_msg.is_some());
    let refusal = map_error(&LifecycleError::LockBusy);
    assert!(build_chunk_response(reply_head(1, 2, Some(refusal)), &chunk()).chunk.is_none());
    assert!(build_chunk_response(reply_head(1, 2, None), &chunk()).chunk.is_some());
    assert!(conversion_chunk_reply(1, 2, Ok(chunk())).chunk.is_some());
    assert_eq!(
        conversion_chunk_reply(1, 2, Err(ConversionError::Conflict)).head.ret_code,
        RetCode::Aborted
    );
    let invalid = invalid_request_reply(1, 2, RequestFault::MissingChunkId.message());
    assert_eq!(invalid.head.ret_code, RetCode::InvalidArgument);
    assert_eq!(invalid.head.error_msg.unwrap(), "missing chunk_id");
}

#[test]
fn other_replies() {
    let query = build_query_response(1, 2, &chunk(), 900);
    assert_eq!(query.layout_validity_ms, 900);
    assert_eq!(build_delete_range_response(1, 2, Ok(())).ret_code, RetCode::Success);
    assert_eq!(
        build_discard_replacement_response(1, 2, Err(LifecycleError::StateConflict)).ret_code,
        RetCode::Aborted
    );
    let outcome = AppendChunkOutcome { modify_ts: 6, strips: vec![mirror()], chunk: None };
    let append = append_reply(1, 2, Ok(outcome));
    assert_eq!(append.modify_ts, 6);
    assert_eq!(append.strips.unwrap().len(), 1);
    assert!(append.chunk.is_none());
    assert_eq!(segment_reply(1, 2, Ok(segment(3))).segment, Some(build_segment(&segment(3))));
    assert!(segment_reply(1, 2, Err(LifecycleError::LockBusy)).segment.is_none());
    let prepared = prepared_reply(
        1,
        2,
        Ok(PreparedConversion { task_id: ID, operation_id: OTHER, replacement_strip: ec() }),
    );
    assert_eq!((prepared.task_id, prepared.operation_id), (Some(ID), Some(OTHER)));
    assert!(prepared.replacement_strip.is_some());
    assert_eq!(conversion_count_reply(1, 2, Ok(12)).accepted, 12);
    assert_eq!(conversion_count_reply(1, 2, Err(ConversionError::StaleClaim)).accepted, 0);
}

#[test]
fn pages_are_followed_from_their_last_chunk() {
    let reply = build_list_response(1, 2, Ok(vec![chunk(), chunk()]));
    assert_eq!(reply.chunks.unwrap().len(), 2);
    assert_eq!(reply.next_token, Some(ID));
    assert!(reply.has_next_token);
    let empty = build_list_response(1, 2, Ok(Vec::new()));
    assert!(empty.chunks.is_none());
    assert!(!empty.has_next_token);
}

#[test]
fn doubtful_segments_stay() {
    let found = owner_reply(1, 2, Ok(SegmentOwnerDisposition::Absent));
    assert_eq!(found.disposition, SegmentOwnerDisposition::Absent);
    let failed = owner_reply(1, 2, Err(SegmentOwnerError::OwnerMismatch));
    assert_eq!(failed.head.ret_code, RetCode::Unavailable);
    assert_eq!(failed.disposition, SegmentOwnerDisposition::Referenced);
    let missing = owner_refusal_reply(
        1,
        2,
        RetCode::Unavailable,
        "owner disposition service is unavailable".to_string(),
    );
    assert_eq!(missing.disposition, SegmentOwnerDisposition::Referenced);
    let handoff = handoff_reply(1, 2, Ok(RelocationHandoffDisposition::Accepted));
    assert_eq!(handoff.disposition, RelocationHandoffDisposition::Accepted);
    let refused = handoff_reply(1, 2, Err(RelocationAdmissionError::InvalidGeometry));
    assert_eq!(refused.head.ret_code, RetCode::InvalidArgument);
    assert_eq!(refused.disposition, RelocationHandoffDisposition::Rejected);
    let absent = handoff_refusal_reply(1, 2, RetCode::Unavailable, "x".to_string());
    assert_eq!(absent.disposition, RelocationHandoffDisposition::Rejected);
}

#[test]
fn requests_are_checked_in_order() {
    assert_eq!(require_chunk_id(None), Err(RequestFault::MissingChunkId));
    assert_eq!(require_chunk_id(Some(ID)), Ok(ID));
    assert_eq!(closed_sequence(u32::MAX), None);
    assert_eq!(closed_sequence(0), Some(0));
    assert_eq!(
        parse_allocate(WireStripType::Ec, WireChunkType::Repo),
        Ok((StripType::Ec, ChunkType::Repo))
    );
    assert_eq!(
        parse_allocate(WireStripType::Unknown(3), WireChunkType::Unknown(3)),
        Err(RequestFault::InvalidStripType)
    );
    assert_eq!(
        parse_allocate(WireStripType::Mirror, WireChunkType::Unknown(3)),
        Err(RequestFault::InvalidChunkType)
    );
    assert_eq!(
        parse_append(None, WireStripType::Unknown(3)),
        Err(RequestFault::MissingChunkId)
    );
    assert_eq!(
        parse_append(Some(ID), WireStripType::Unknown(3)),
        Err(RequestFault::InvalidStripType)
    );
    assert_eq!(parse_append(Some(ID), WireStripType::Mirror), Ok((ID, StripType::Mirror)));
    assert_eq!(parse_reserve(Some(ID), Some(OTHER)), Ok((ID, OTHER)));
    assert_eq!(parse_reserve(Some(ID), None), Err(RequestFault::MissingGroupId));
    assert_eq!(
        parse_mutate(Some(ID), Some(OTHER), WireAction::Renew),
        Ok((ID, OTHER, StripReservationAction::Renew))
    );
    assert_eq!(
        parse_mutate(Some(ID), Some(OTHER), WireAction::Unknown(8)),
        Err(RequestFault::InvalidAction)
    );
}

#[test]
fn strips_and_segments_of_requests() {
    let sent = build_chunk_strip(&mirror());
    assert!(parse_update_strip(Some(ID), Some(&sent)).is_ok());
    assert_eq!(
        parse_update_strip(Some(ID), None).unwrap_err(),
        RequestFault::MissingStrip
    );
    let mut broken = build_chunk_strip(&mirror());
    broken.body = WireBody::Missing;
    assert_eq!(
        parse_update_strip(Some(ID), Some(&broken)).unwrap_err(),
        RequestFault::InvalidStripBody
    );
    let old = Some(vec![sent]);
    let range = parse_replace_range(Some(ID), Some(OTHER), &old, &None).unwrap();
    assert_eq!(range.old_strips.len(), 1);
    assert!(range.replacement.is_empty());
    assert_eq!(
        parse_replace_range(Some(ID), None, &old, &None).unwrap_err(),
        RequestFault::MissingOperationId
    );
    assert_eq!(
        parse_replace_range(Some(ID), Some(OTHER), &old, &Some(vec![broken])).unwrap_err(),
        RequestFault::InvalidReplacementStrip
    );
    assert_eq!(
        parse_segment_request(Some(ID), Some(build_segment(&segment(3)))),
        Ok((ID, segment(3)))
    );
    assert_eq!(parse_segment_request(Some(ID), None), Err(RequestFault::MissingSegment));
    let request = parse_allocate_replacement(
        Some(ID),
        Some(build_segment(&segment(3))),
        &Some(vec![build_segment(&segment(4))]),
    )
    .unwrap();
    assert_eq!(request.surviving, vec![segment(4)]);
    assert_eq!(
        parse_allocate_replacement(Some(ID), None, &None).unwrap_err(),
        RequestFault::MissingOldSegment
    );
}
