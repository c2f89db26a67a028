//! Replies of the service.
use vstd::prelude::*;
use crate::conversion::coordinator::PreparedConversion;
use crate::conversion::{ConversionError, ConversionErrorModel};
use crate::lifecycle::error::{LifecycleError, LifecycleErrorModel};
use crate::lifecycle::handler::{chunk_models, AppendChunkOutcome};
use crate::relocation::{RelocationAdmissionError, RelocationHandoffDisposition};
use crate::service::wire::{
    build_chunk, build_chunk_strip, build_segment, build_strips, if_any, sent_chunk, sent_segment,
    sent_strip, sent_strips, wire_strips_option, WireChunk, WireChunkModel, WireSegment, WireStrip,
    WireStripModel,
};
use crate::task::owner::{SegmentOwnerDisposition, SegmentOwnerError};
use crate::text::text;
use crate::types::{strip_models, Chunk, ChunkId, ChunkModel, Segment};

verus! {

/// How a request went.
#[derive(Debug, Clone, Copy, PartialEq, Eq, Structural)]
pub enum RetCode {
    Success,
    NotMyRange,
    FailedPrecondition,
    NotFound,
    AlreadyExists,
    Aborted,
    Internal,
    InvalidArgument,
    Unavailable,
    StripIndexOutOfRange,
}

/// What every reply begins with.
#[derive(Debug)]
pub struct ReplyHead {
    pub id: u64,
    pub rpc_create_nano: u64,
    pub ret_code: RetCode,
    pub error_msg: Option<String>,
    pub range_start: u32,
    pub range_end: u32,
}

/// Model of a reply's head.
pub struct HeadModel {
    pub id: u64,
    pub rpc_create_nano: u64,
    pub ret_code: RetCode,
    pub error_msg: Option<Seq<char>>,
    pub range_start: u32,
    pub range_end: u32,
}

impl View for ReplyHead {
    type V = HeadModel;

    open spec fn view(&self) -> HeadModel {
        HeadModel {
            id: self.id,
            rpc_create_nano: self.rpc_create_nano,
            ret_code: self.ret_code,
            error_msg: match self.error_msg {
                Some(message) => Some(message@),
                None => None,
            },
            range_start: self.range_start,
            range_end: self.range_end,
        }
    }
}

/// A refusal: its code, its text, and the range that the caller should know of.
#[derive(Debug)]
pub struct Refusal {
    pub code: RetCode,
    pub message: String,
    pub range_start: u32,
    pub range_end: u32,
}

/// Model of a refusal.
pub struct RefusalModel {
    pub code: RetCode,
    pub message: Seq<char>,
    pub range_start: u32,
    pub range_end: u32,
}

impl View for Refusal {
    type V = RefusalModel;

    open spec fn view(&self) -> RefusalModel {
        RefusalModel {
            code: self.code,
            message: self.message@,
            range_start: self.range_start,
            range_end: self.range_end,
        }
    }
}

/// The code of a lifecycle error.
pub open spec fn code_of(error: LifecycleErrorModel) -> RetCode {
    match error {
        LifecycleErrorModel::NotMyRange { .. } => RetCode::NotMyRange,
        LifecycleErrorModel::InvalidStateTransition(_) => RetCode::FailedPrecondition,
        LifecycleErrorModel::ChunkNotFound => RetCode::NotFound,
        LifecycleErrorModel::ChunkAlreadyExists => RetCode::AlreadyExists,
        LifecycleErrorModel::StateConflict => RetCode::Aborted,
        LifecycleErrorModel::Allocation(_) => RetCode::Internal,
        LifecycleErrorModel::Commit(_) => RetCode::Internal,
        LifecycleErrorModel::Cleanup(_) => RetCode::Internal,
        LifecycleErrorModel::Storage(_) => RetCode::Internal,
        LifecycleErrorModel::InvalidRequest(_) => RetCode::InvalidArgument,
        LifecycleErrorModel::LockBusy => RetCode::Unavailable,
        LifecycleErrorModel::LockTimeout => RetCode::Unavailable,
        LifecycleErrorModel::StripIndexOutOfRange { .. } => RetCode::StripIndexOutOfRange,
    }
}

/// The refusal of a lifecycle error. A bucket outside the owned ranges is named,
/// for the caller to look up its owner.
pub open spec fn refusal_of(error: LifecycleErrorModel) -> RefusalModel {
    let bucket = match error {
        LifecycleErrorModel::NotMyRange { bucket } => bucket as u32,
        _ => 0u32,
    };
    RefusalModel {
        code: code_of(error),
        message: error.message(),
        range_start: bucket,
        range_end: bucket,
    }
}

/// The refusal of a lifecycle error.
pub fn map_error(error: &LifecycleError) -> (r: Refusal)
    ensures
        r@ == refusal_of(error@),
{
    let bucket: u32 = match error {
        LifecycleError::NotMyRange { bucket } => *bucket as u32,
        _ => 0,
    };
    let code = match error {
        LifecycleError::NotMyRange { .. } => RetCode::NotMyRange,
        LifecycleError::InvalidStateTransition(_) => RetCode::FailedPrecondition,
        LifecycleError::ChunkNotFound => RetCode::NotFound,
        LifecycleError::ChunkAlreadyExists => RetCode::AlreadyExists,
        LifecycleError::StateConflict => RetCode::Aborted,
        LifecycleError::Allocation(_) | LifecycleError::Commit(_) | LifecycleError::Cleanup(_) =>
            RetCode::Internal,
        LifecycleError::Storage(_) => RetCode::Internal,
        LifecycleError::InvalidRequest(_) => RetCode::InvalidArgument,
        LifecycleError::LockBusy | LifecycleError::LockTimeout => RetCode::Unavailable,
        LifecycleError::StripIndexOutOfRange { .. } => RetCode::StripIndexOutOfRange,
    };
    Refusal { code, message: error.message(), range_start: bucket, range_end: bucket }
}

/// The refusal of a conversion error.
pub open spec fn conversion_refusal(error: ConversionErrorModel) -> RefusalModel {
    RefusalModel {
        code: match error {
            ConversionErrorModel::Lifecycle(inner) => code_of(inner),
            ConversionErrorModel::Conflict => RetCode::Aborted,
            ConversionErrorModel::StaleClaim => RetCode::FailedPrecondition,
            ConversionErrorModel::TaskStore(_) => RetCode::Internal,
            ConversionErrorModel::Payload(_) => RetCode::Internal,
        },
        message: error.message(),
        range_start: 0,
        range_end: 0,
    }
}

/// The refusal of a conversion error.
pub fn map_conversion_error(error: &ConversionError) -> (r: Refusal)
    ensures
        r@ == conversion_refusal(error@),
{
    let code = match error {
        ConversionError::Lifecycle(inner) => map_error(inner).code,
        ConversionError::Conflict => RetCode::Aborted,
        ConversionError::StaleClaim => RetCode::FailedPrecondition,
        ConversionError::TaskStore(_) | ConversionError::Payload(_) => RetCode::Internal,
    };
    Refusal { code, message: error.message(), range_start: 0, range_end: 0 }
}

/// The head of a reply that says how the request went.
pub open spec fn head_of(id: u64, rpc_create_nano: u64, refusal: Option<RefusalModel>) -> HeadModel {
    match refusal {
        None => HeadModel {
            id,
            rpc_create_nano,
            ret_code: RetCode::Success,
            error_msg: None,
            range_start: 0,
            range_end: 0,
        },
        Some(refusal) => HeadModel {
            id,
            rpc_create_nano,
            ret_code: refusal.code,
            error_msg: Some(refusal.message),
            range_start: refusal.range_start,
            range_end: refusal.range_end,
        },
    }
}

/// The head of a reply that says how the request went.
pub fn reply_head(id: u64, rpc_create_nano: u64, refusal: Option<Refusal>) -> (r: ReplyHead)
    ensures
        r@ == head_of(
            id,
            rpc_create_nano,
            match refusal {
                Some(refusal) => Some(refusal@),
                None => None,
            },
        ),
{
    match refusal {
        None => ReplyHead {
            id,
            rpc_create_nano,
            ret_code: RetCode::Success,
            error_msg: None,
            range_start: 0,
            range_end: 0,
        },
        Some(refusal) => ReplyHead {
            id,
            rpc_create_nano,
            ret_code: refusal.code,
            error_msg: Some(refusal.message),
            range_start: refusal.range_start,
            range_end: refusal.range_end,
        },
    }
}

/// The refusal of a request that cannot be read.
pub open spec fn invalid_argument(message: Seq<char>) -> RefusalModel {
    RefusalModel { code: RetCode::InvalidArgument, message, range_start: 0, range_end: 0 }
}

/// A reply with a chunk on success.
#[derive(Debug)]
pub struct ChunkReply {
    pub head: ReplyHead,
    pub chunk: Option<WireChunk>,
}

/// Model of an optional chunk as sent.
pub open spec fn wire_chunk_option(chunk: Option<WireChunk>) -> Option<WireChunkModel> {
    match chunk {
        Some(chunk) => Some(chunk@),
        None => None,
    }
}

/// Builds a reply that carries a chunk exactly on success.
pub fn build_chunk_response(head: ReplyHead, chunk: &Chunk) -> (r: ChunkReply)
    ensures
        r.head@ == head@,
        wire_chunk_option(r.chunk) == (if head.ret_code == RetCode::Success {
            Some(sent_chunk(chunk@))
        } else {
            None
        }),
{
    let chunk = match head.ret_code {
        RetCode::Success => Some(build_chunk(chunk)),
        _ => None,
    };
    ChunkReply { head, chunk }
}

/// The reply to a request whose request could not be read.
pub fn invalid_request_reply(id: u64, rpc_create_nano: u64, message: &str) -> (r: ChunkReply)
    ensures
        r.head@ == head_of(id, rpc_create_nano, Some(invalid_argument(message@))),
        r.chunk is None,
{
    let refusal = Refusal {
        code: RetCode::InvalidArgument,
        message: text(message),
        range_start: 0,
        range_end: 0,
    };
    ChunkReply { head: reply_head(id, rpc_create_nano, Some(refusal)), chunk: None }
}

/// How a chunk operation went.
pub open spec fn chunk_refusal(result: Result<Chunk, LifecycleError>) -> Option<RefusalModel> {
    match result {
        Ok(_) => None,
        Err(error) => Some(refusal_of(error@)),
    }
}

/// The reply to an operation that gives a chunk.
pub fn chunk_reply(id: u64, rpc_create_nano: u64, result: Result<Chunk, LifecycleError>) -> (r:
    ChunkReply)
    ensures
        r.head@ == head_of(id, rpc_create_nano, chunk_refusal(result)),
        wire_chunk_option(r.chunk) == (match result {
            Ok(chunk) => Some(sent_chunk(chunk@)),
            Err(_) => None,
        }),
{
    match result {
        Ok(chunk) => build_chunk_response(reply_head(id, rpc_create_nano, None), &chunk),
        Err(error) => ChunkReply {
            head: reply_head(id, rpc_create_nano, Some(map_error(&error))),
            chunk: None,
        },
    }
}

/// The reply to a conversion that gives a chunk.
pub fn conversion_chunk_reply(id: u64, rpc_create_nano: u64, result: Result<Chunk, ConversionError>) -> (r:
    ChunkReply)
    ensures
        r.head@ == head_of(
            id,
            rpc_create_nano,
            match result {
                Ok(_) => None,
                Err(error) => Some(conversion_refusal(error@)),
            },
        ),
        wire_chunk_option(r.chunk) == (match result {
            Ok(chunk) => Some(sent_chunk(chunk@)),
            Err(_) => None,
        }),
{
    match result {
        Ok(chunk) => build_chunk_response(reply_head(id, rpc_create_nano, None), &chunk),
        Err(error) => ChunkReply {
            head: reply_head(id, rpc_create_nano, Some(map_conversion_error(&error))),
            chunk: None,
        },
    }
}

/// A reply to a query: the chunk, and how long its layout may be used.
#[derive(Debug)]
pub struct QueryReply {
    pub head: ReplyHead,
    pub chunk: WireChunk,
    pub layout_validity_ms: u64,
}

/// Builds the reply to a query that found its chunk.
pub fn build_query_response(id: u64, rpc_create_nano: u64, chunk: &Chunk, layout_validity_ms: u64) -> (r:
    QueryReply)
    ensures
        r.head@ == head_of(id, rpc_create_nano, None),
        r.chunk@ == sent_chunk(chunk@),
        r.layout_validity_ms == layout_validity_ms,
{
    QueryReply {
        head: reply_head(id, rpc_create_nano, None),
        chunk: build_chunk(chunk),
        layout_validity_ms,
    }
}

/// The refusal of a query: a foreign range is not named.
pub fn query_refusal(error: &LifecycleError) -> (r: Refusal)
    ensures
        r@ == (RefusalModel { range_start: 0, range_end: 0, ..refusal_of(error@) }),
{
    let refusal = map_error(error);
    Refusal { code: refusal.code, message: refusal.message, range_start: 0, range_end: 0 }
}

fn done_refusal(result: Result<(), LifecycleError>) -> (r: Option<Refusal>)
    ensures
        (match r {
            Some(refusal) => Some(refusal@),
            None => None,
        }) == (match result {
            Ok(_) => None,
            Err(error) => Some(refusal_of(error@)),
        }),
{
    match result {
        Ok(_) => None,
        Err(error) => Some(map_error(&error)),
    }
}

/// Builds the reply to the deletion of a range.
pub fn build_delete_range_response(id: u64, rpc_create_nano: u64, result: Result<(), LifecycleError>) -> (r:
    ReplyHead)
    ensures
        r@ == head_of(
            id,
            rpc_create_nano,
            match result {
                Ok(_) => None,
                Err(error) => Some(refusal_of(error@)),
            },
        ),
{
    reply_head(id, rpc_create_nano, done_refusal(result))
}

/// Builds the reply to the discarding of a replacement segment.
pub fn build_discard_replacement_response(
    id: u64,
    rpc_create_nano: u64,
    result: Result<(), LifecycleError>,
) -> (r: ReplyHead)
    ensures
        r@ == head_of(
            id,
            rpc_create_nano,
            match result {
                Ok(_) => None,
                Err(error) => Some(refusal_of(error@)),
            },
        ),
{
    reply_head(id, rpc_create_nano, done_refusal(result))
}

/// A reply with a page of chunks.
#[derive(Debug)]
pub struct ListReply {
    pub head: ReplyHead,
    pub chunks: Option<Vec<WireChunk>>,
    pub next_token: Option<ChunkId>,
    pub has_next_token: bool,
}

/// Models of a run of sent chunks.
pub open spec fn wire_chunk_models(chunks: Seq<WireChunk>) -> Seq<WireChunkModel> {
    Seq::new(chunks.len(), |i: int| chunks[i]@)
}

/// Model of an optional run of sent chunks.
pub open spec fn wire_chunks_option(chunks: Option<Vec<WireChunk>>) -> Option<Seq<WireChunkModel>> {
    match chunks {
        Some(list) => Some(wire_chunk_models(list@)),
        None => None,
    }
}

/// Forms of a run of chunks.
pub open spec fn sent_chunks(chunks: Seq<ChunkModel>) -> Seq<WireChunkModel> {
    Seq::new(chunks.len(), |i: int| sent_chunk(chunks[i]))
}

/// The identity of the last chunk of a page.
pub open spec fn last_id(chunks: Seq<ChunkModel>) -> Option<ChunkId> {
    if chunks.len() == 0 {
        None
    } else {
        chunks.last().id
    }
}

/// Builds the reply to a listing: a page is followed from its last chunk.
pub fn build_list_response(id: u64, rpc_create_nano: u64, result: Result<Vec<Chunk>, LifecycleError>) -> (r:
    ListReply)
    ensures
        match result {
            Ok(chunks) => r.head@ == head_of(id, rpc_create_nano, None) && wire_chunks_option(
                r.chunks,
            ) == if_any(sent_chunks(chunk_models(chunks@))) && r.next_token == last_id(
                chunk_models(chunks@),
            ) && r.has_next_token == (r.next_token is Some),
            Err(error) => r.head@ == head_of(id, rpc_create_nano, Some(refusal_of(error@)))
                && r.chunks is None && r.next_token is None && !r.has_next_token,
        },
{
    match result {
        Ok(chunks) => {
            let mut out: Vec<WireChunk> = Vec::new();
            let mut i: usize = 0;
            while i < chunks.len()
                invariant
                    i <= chunks.len(),
                    out@.len() == i,
                    forall|j: int| 0 <= j < i ==> (#[trigger] out@[j])@ == sent_chunk(chunks@[j]@),
                decreases chunks.len() - i,
            {
                out.push(build_chunk(&chunks[i]));
                i = i + 1;
            }
            assert(wire_chunk_models(out@) =~= sent_chunks(chunk_models(chunks@)));
            let next_token = if chunks.len() == 0 {
                None
            } else {
                assert(chunk_models(chunks@).last() == chunks@[chunks@.len() - 1]@);
                chunks[chunks.len() - 1].id
            };
            ListReply {
                head: reply_head(id, rpc_create_nano, None),
                chunks: if out.len() == 0 {
                    None
                } else {
                    Some(out)
                },
                next_token,
                has_next_token: next_token.is_some(),
            }
        },
        Err(error) => ListReply {
            head: reply_head(id, rpc_create_nano, Some(map_error(&error))),
            chunks: None,
            next_token: None,
            has_next_token: false,
        },
    }
}

/// A reply to an append: the new strips, and the whole chunk where the caller
/// was behind.
#[derive(Debug)]
pub struct AppendReply {
    pub head: ReplyHead,
    pub modify_ts: u64,
    pub strips: Option<Vec<WireStrip>>,
    pub chunk: Option<WireChunk>,
}

/// Builds the reply to an append.
pub fn append_reply(id: u64, rpc_create_nano: u64, result: Result<AppendChunkOutcome, LifecycleError>) -> (r:
    AppendReply)
    ensures
        match result {
            Ok(outcome) => r.head@ == head_of(id, rpc_create_nano, None) && r.modify_ts
                == outcome.modify_ts && wire_strips_option(r.strips) == if_any(
                sent_strips(strip_models(outcome.strips@)),
            ) && wire_chunk_option(r.chunk) == (match outcome.chunk {
                Some(chunk) => Some(sent_chunk(chunk@)),
                None => None,
            }),
            Err(error) => r.head@ == head_of(id, rpc_create_nano, Some(refusal_of(error@)))
                && r.modify_ts == 0 && r.strips is None && r.chunk is None,
        },
{
    match result {
        Ok(outcome) => AppendReply {
            head: reply_head(id, rpc_create_nano, None),
            modify_ts: outcome.modify_ts,
            strips: build_strips(&outcome.strips),
            chunk: match &outcome.chunk {
                Some(chunk) => Some(build_chunk(chunk)),
                None => None,
            },
        },
        Err(error) => AppendReply {
            head: reply_head(id, rpc_create_nano, Some(map_error(&error))),
            modify_ts: 0,
            strips: None,
            chunk: None,
        },
    }
}

/// A reply with a segment on success.
#[derive(Debug)]
pub struct SegmentReply {
    pub head: ReplyHead,
    pub segment: Option<WireSegment>,
}

/// Builds the reply to the allocation of a replacement segment.
pub fn segment_reply(id: u64, rpc_create_nano: u64, result: Result<Segment, LifecycleError>) -> (r:
    SegmentReply)
    ensures
        match result {
            Ok(segment) => r.head@ == head_of(id, rpc_create_nano, None) && r.segment == Some(
                sent_segment(segment),
            ),
            Err(error) => r.head@ == head_of(id, rpc_create_nano, Some(refusal_of(error@)))
                && r.segment is None,
        },
{
    match result {
        Ok(segment) => SegmentReply {
            head: reply_head(id, rpc_create_nano, None),
            segment: Some(build_segment(&segment)),
        },
        Err(error) => SegmentReply {
            head: reply_head(id, rpc_create_nano, Some(map_error(&error))),
            segment: None,
        },
    }
}

/// A reply to the preparation of a conversion.
#[derive(Debug)]
pub struct PreparedReply {
    pub head: ReplyHead,
    pub task_id: Option<ChunkId>,
    pub operation_id: Option<ChunkId>,
    pub replacement_strip: Option<WireStrip>,
}

/// Model of an optional sent strip.
pub open spec fn wire_strip_option(strip: Option<WireStrip>) -> Option<WireStripModel> {
    match strip {
        Some(strip) => Some(strip@),
        None => None,
    }
}

/// Builds the reply to the preparation of a conversion.
pub fn prepared_reply(id: u64, rpc_create_nano: u64, result: Result<PreparedConversion, ConversionError>) -> (r:
    PreparedReply)
    ensures
        match result {
            Ok(prepared) => r.head@ == head_of(id, rpc_create_nano, None) && r.task_id == Some(
                prepared.task_id,
            ) && r.operation_id == Some(prepared.operation_id) && wire_strip_option(
                r.replacement_strip,
            ) == Some(sent_strip(prepared.replacement_strip@)),
            Err(error) => r.head@ == head_of(id, rpc_create_nano, Some(conversion_refusal(error@)))
                && r.task_id is None && r.operation_id is None && r.replacement_strip is None,
        },
{
    match result {
        Ok(prepared) => PreparedReply {
            head: reply_head(id, rpc_create_nano, None),
            task_id: Some(prepared.task_id),
            operation_id: Some(prepared.operation_id),
            replacement_strip: Some(build_chunk_strip(&prepared.replacement_strip)),
        },
        Err(error) => PreparedReply {
            head: reply_head(id, rpc_create_nano, Some(map_conversion_error(&error))),
            task_id: None,
            operation_id: None,
            replacement_strip: None,
        },
    }
}

/// A reply with the number of accepted chunks or groups.
#[derive(Debug)]
pub struct CountReply {
    pub head: ReplyHead,
    pub accepted: u64,
}

/// Builds the reply to a triggered conversion.
pub fn conversion_count_reply(id: u64, rpc_create_nano: u64, result: Result<u64, ConversionError>) -> (r:
    CountReply)
    ensures
        match result {
            Ok(accepted) => r.head@ == head_of(id, rpc_create_nano, None) && r.accepted == accepted,
            Err(error) => r.head@ == head_of(id, rpc_create_nano, Some(conversion_refusal(error@)))
                && r.accepted == 0,
        },
{
    match result {
        Ok(accepted) => CountReply { head: reply_head(id, rpc_create_nano, None), accepted },
        Err(error) => CountReply {
            head: reply_head(id, rpc_create_nano, Some(map_conversion_error(&error))),
            accepted: 0,
        },
    }
}

/// A reply to the question who owns a segment. An error keeps the segment: it is
/// answered as referenced.
#[derive(Debug)]
pub struct OwnerReply {
    pub head: ReplyHead,
    pub disposition: SegmentOwnerDisposition,
}

/// Builds the reply to the question who owns a segment.
pub fn owner_reply(
    id: u64,
    rpc_create_nano: u64,
    result: Result<SegmentOwnerDisposition, SegmentOwnerError>,
) -> (r: OwnerReply)
    ensures
        match result {
            Ok(disposition) => r.head@ == head_of(id, rpc_create_nano, None) && r.disposition
                == disposition,
            Err(error) => r.head@ == head_of(
                id,
                rpc_create_nano,
                Some(
                    RefusalModel {
                        code: RetCode::Unavailable,
                        message: error@.message(),
                        range_start: 0,
                        range_end: 0,
                    },
                ),
            ) && r.disposition == SegmentOwnerDisposition::Referenced,
        },
{
    match result {
        Ok(disposition) => OwnerReply { head: reply_head(id, rpc_create_nano, None), disposition },
        Err(error) => owner_refusal_reply(id, rpc_create_nano, RetCode::Unavailable, error.message()),
    }
}

/// Builds the reply to an owner question that is refused.
pub fn owner_refusal_reply(id: u64, rpc_create_nano: u64, code: RetCode, message: String) -> (r: OwnerReply)
    ensures
        r.head@ == head_of(
            id,
            rpc_create_nano,
            Some(RefusalModel { code, message: message@, range_start: 0, range_end: 0 }),
        ),
        r.disposition == SegmentOwnerDisposition::Referenced,
{
    let refusal = Refusal { code, message, range_start: 0, range_end: 0 };
    OwnerReply {
        head: reply_head(id, rpc_create_nano, Some(refusal)),
        disposition: SegmentOwnerDisposition::Referenced,
    }
}

/// A reply to a relocation handoff. An error rejects the handoff.
#[derive(Debug)]
pub struct HandoffReply {
    pub head: ReplyHead,
    pub disposition: RelocationHandoffDisposition,
}

/// Builds the reply to a relocation handoff.
pub fn handoff_reply(
    id: u64,
    rpc_create_nano: u64,
    result: Result<RelocationHandoffDisposition, RelocationAdmissionError>,
) -> (r: HandoffReply)
    ensures
        match result {
            Ok(disposition) => r.head@ == head_of(id, rpc_create_nano, None) && r.disposition
                == disposition,
            Err(error) => r.head@ == head_of(
                id,
                rpc_create_nano,
                Some(invalid_argument(error@.message())),
            ) && r.disposition == RelocationHandoffDisposition::Rejected,
        },
{
    match result {
        Ok(disposition) => HandoffReply { head: reply_head(id, rpc_create_nano, None), disposition },
        Err(error) => handoff_refusal_reply(
            id,
            rpc_create_nano,
            RetCode::InvalidArgument,
            error.message(),
        ),
    }
}

/// Builds the reply to a handoff that is refused.
pub fn handoff_refusal_reply(id: u64, rpc_create_nano: u64, code: RetCode, message: String) -> (r:
    HandoffReply)
    ensures
        r.head@ == head_of(
            id,
            rpc_create_nano,
            Some(RefusalModel { code, message: message@, range_start: 0, range_end: 0 }),
        ),
        r.disposition == RelocationHandoffDisposition::Rejected,
{
    let refusal = Refusal { code, message, range_start: 0, range_end: 0 };
    HandoffReply {
        head: reply_head(id, rpc_create_nano, Some(refusal)),
        disposition: RelocationHandoffDisposition::Rejected,
    }
}

/// A reply names a range exactly where the bucket is not owned here, and never
/// reports success for an error.
pub proof fn law_refusals_are_told(error: LifecycleErrorModel)
    ensures
        refusal_of(error).code != RetCode::Success,
        refusal_of(error).code == RetCode::NotMyRange <==> error is NotMyRange,
        error is NotMyRange ==> refusal_of(error).range_start == error->bucket
            && refusal_of(error).range_end == error->bucket,
        !(error is NotMyRange) ==> refusal_of(error).range_start == 0 && refusal_of(error).range_end == 0,
{
}

/// A reply answers the request by its number and time. It says success exactly where
/// nothing was refused; otherwise it says the code and the text of the refusal.
pub proof fn law_reply_says_how_it_went(
    id: u64,
    rpc_create_nano: u64,
    error: Option<LifecycleErrorModel>,
)
    ensures
        ({
            let head = head_of(
                id,
                rpc_create_nano,
                match error {
                    Some(error) => Some(refusal_of(error)),
                    None => None,
                },
            );
            &&& head.id == id
            &&& head.rpc_create_nano == rpc_create_nano
            &&& head.ret_code == RetCode::Success <==> error is None
            &&& error is None <==> head.error_msg is None
            &&& error matches Some(error) ==> head.error_msg == Some(error.message())
            &&& !(error matches Some(LifecycleErrorModel::NotMyRange { .. })) ==> head.range_start
                == 0 && head.range_end == 0
            &&& error matches Some(LifecycleErrorModel::NotMyRange { bucket }) ==> head.range_start
                == bucket && head.range_end == bucket && head.ret_code == RetCode::NotMyRange
            &&& error == Some(LifecycleErrorModel::ChunkNotFound) <==> head.ret_code
                == RetCode::NotFound
            &&& error == Some(LifecycleErrorModel::ChunkAlreadyExists) <==> head.ret_code
                == RetCode::AlreadyExists
            &&& error == Some(LifecycleErrorModel::StateConflict) <==> head.ret_code
                == RetCode::Aborted
            &&& (error == Some(LifecycleErrorModel::LockBusy) || error == Some(
                LifecycleErrorModel::LockTimeout,
            )) <==> head.ret_code == RetCode::Unavailable
            &&& (error matches Some(LifecycleErrorModel::InvalidRequest(_))) <==> head.ret_code
                == RetCode::InvalidArgument
            &&& (error matches Some(LifecycleErrorModel::InvalidStateTransition(_)))
                <==> head.ret_code == RetCode::FailedPrecondition
            &&& (error matches Some(LifecycleErrorModel::StripIndexOutOfRange { .. }))
                <==> head.ret_code == RetCode::StripIndexOutOfRange
        }),
{
}

/// The refusal of a conversion names no range and says the text of its error. One that
/// comes from the chunk keeps the code of that error.
pub proof fn law_conversion_refusals_are_told(error: ConversionErrorModel)
    ensures
        conversion_refusal(error).code != RetCode::Success,
        conversion_refusal(error).message == error.message(),
        conversion_refusal(error).range_start == 0 && conversion_refusal(error).range_end == 0,
        error matches ConversionErrorModel::Lifecycle(inner) ==> conversion_refusal(error).code
            == refusal_of(inner).code,
        error is Conflict ==> conversion_refusal(error).code == RetCode::Aborted,
        error is StaleClaim ==> conversion_refusal(error).code == RetCode::FailedPrecondition,
        error is TaskStore || error is Payload ==> conversion_refusal(error).code
            == RetCode::Internal,
{
}

/// A page lists its chunks in order, one for one; the next one starts behind its last
/// chunk, and there is none behind an empty page.
pub proof fn law_pages_are_followed_from_their_last(chunks: Seq<ChunkModel>)
    ensures
        sent_chunks(chunks).len() == chunks.len(),
        forall|i: int|
            0 <= i < chunks.len() && chunks[i].id is Some ==> (#[trigger] sent_chunks(chunks)[i]).id
                == chunks[i].id->0,
        chunks.len() == 0 ==> last_id(chunks) is None,
        chunks.len() > 0 ==> last_id(chunks) == chunks[chunks.len() - 1].id,
{
}

} // verus!
