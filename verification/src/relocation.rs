//! Admission of exact-segment relocation handoffs.
use vstd::prelude::*;
use crate::task::manager::{TaskManagerError, TaskManagerErrorModel};
use crate::task::relocation::{RelocateSegmentTaskDisposition, RelocateSegmentTaskPayload};
use crate::task::{ChunkTaskState, ChunkTaskValue, TaskKind, TaskModel, TaskVersions};
use crate::text::text;
use crate::types::{ChunkId, Segment};

verus! {

/// A field that a handoff lacks.
#[derive(Debug, Clone, Copy, PartialEq, Eq, Structural)]
pub enum HandoffField {
    OperationId,
    ChunkId,
    Source,
    Target,
}

/// Why a handoff is refused.
#[derive(Debug)]
pub enum RelocationAdmissionError {
    Missing(HandoffField),
    InvalidGeometry,
    IdentityConflict,
    Manager(TaskManagerError),
    Checkpoint(String),
}

/// Model of a refusal.
pub enum RelocationErrorModel {
    Missing(HandoffField),
    InvalidGeometry,
    IdentityConflict,
    Manager(TaskManagerErrorModel),
    Checkpoint(Seq<char>),
}

impl View for RelocationAdmissionError {
    type V = RelocationErrorModel;

    open spec fn view(&self) -> RelocationErrorModel {
        match self {
            RelocationAdmissionError::Missing(field) => RelocationErrorModel::Missing(*field),
            RelocationAdmissionError::InvalidGeometry => RelocationErrorModel::InvalidGeometry,
            RelocationAdmissionError::IdentityConflict => RelocationErrorModel::IdentityConflict,
            RelocationAdmissionError::Manager(e) => RelocationErrorModel::Manager(e@),
            RelocationAdmissionError::Checkpoint(m) => RelocationErrorModel::Checkpoint(m@),
        }
    }
}

impl RelocationErrorModel {
    /// Text of the refusal.
    pub open spec fn message(self) -> Seq<char> {
        match self {
            RelocationErrorModel::Missing(field) => "relocation handoff is missing "@ + (match field {
                HandoffField::OperationId => "operation_id"@,
                HandoffField::ChunkId => "chunk_id"@,
                HandoffField::Source => "source"@,
                HandoffField::Target => "target"@,
            }),
            RelocationErrorModel::InvalidGeometry => "relocation handoff geometry or ownership is invalid"@,
            RelocationErrorModel::IdentityConflict => "relocation operation identity conflicts with its durable task"@,
            RelocationErrorModel::Manager(e) => e.message(),
            RelocationErrorModel::Checkpoint(m) => "relocation task checkpoint is invalid: "@ + m,
        }
    }
}

impl RelocationAdmissionError {
    /// Text of the refusal.
    pub fn message(&self) -> (r: String)
        ensures
            r@ == self@.message(),
    {
        match self {
            RelocationAdmissionError::Missing(field) => {
                let mut out = text("relocation handoff is missing ");
                match field {
                    HandoffField::OperationId => out.append("operation_id"),
                    HandoffField::ChunkId => out.append("chunk_id"),
                    HandoffField::Source => out.append("source"),
                    HandoffField::Target => out.append("target"),
                }
                out
            },
            RelocationAdmissionError::InvalidGeometry => text(
                "relocation handoff geometry or ownership is invalid",
            ),
            RelocationAdmissionError::IdentityConflict => text(
                "relocation operation identity conflicts with its durable task",
            ),
            RelocationAdmissionError::Manager(e) => e.message(),
            RelocationAdmissionError::Checkpoint(m) => {
                let mut out = text("relocation task checkpoint is invalid: ");
                out.append(m.as_str());
                out
            },
        }
    }
}

/// A request to take over a copied segment.
#[derive(Debug, Clone, Copy, PartialEq, Eq, Structural)]
pub struct RelocateSegmentHandoffRequest {
    pub operation_id: Option<ChunkId>,
    pub chunk_id: Option<ChunkId>,
    pub source: Option<Segment>,
    pub target: Option<Segment>,
}

/// The answer to a handoff.
#[derive(Debug, Clone, Copy, PartialEq, Eq, Structural)]
pub enum RelocationHandoffDisposition {
    Accepted,
    Published,
    Stale,
    Rejected,
}

/// The two segments are a copy and its source for the chunk, under the identity
/// that belongs to the source.
pub open spec fn handoff_valid(
    operation_id: ChunkId,
    chunk_id: ChunkId,
    source: Segment,
    target: Segment,
    source_operation: Option<ChunkId>,
) -> bool {
    &&& source != target
    &&& source_operation == Some(operation_id)
    &&& source.disk_id is Some
    &&& target.disk_id is Some
    &&& source.owner_chunk == Some(chunk_id)
    &&& target.owner_chunk == Some(chunk_id)
    &&& source.unit_count != 0
    &&& source.unit_count == target.unit_count
    &&& source.allocation_ts != 0
    &&& target.allocation_ts != 0
}

/// The checkpoint of a valid handoff, or why it is refused.
pub open spec fn handoff_payload(
    request: RelocateSegmentHandoffRequest,
    source_operation: Option<ChunkId>,
) -> Result<RelocateSegmentTaskPayload, RelocationErrorModel> {
    match request.operation_id {
        None => Err(RelocationErrorModel::Missing(HandoffField::OperationId)),
        Some(operation_id) => match request.chunk_id {
            None => Err(RelocationErrorModel::Missing(HandoffField::ChunkId)),
            Some(chunk_id) => match request.source {
                None => Err(RelocationErrorModel::Missing(HandoffField::Source)),
                Some(source) => match request.target {
                    None => Err(RelocationErrorModel::Missing(HandoffField::Target)),
                    Some(target) => if handoff_valid(
                        operation_id,
                        chunk_id,
                        source,
                        target,
                        source_operation,
                    ) {
                        Ok(
                            RelocateSegmentTaskPayload {
                                operation_id,
                                chunk_id,
                                source,
                                target,
                                disposition: RelocateSegmentTaskDisposition::Accepted,
                                expected_modify_ts: None,
                                strip_index: None,
                                source_free_not_before_ms: 0,
                            },
                        )
                    } else {
                        Err(RelocationErrorModel::InvalidGeometry)
                    },
                },
            },
        },
    }
}

/// Validates a handoff. `source_operation` is the identity that belongs to the
/// request's source segment.
pub fn validate_request(
    request: &RelocateSegmentHandoffRequest,
    source_operation: Option<ChunkId>,
) -> (r: Result<RelocateSegmentTaskPayload, RelocationAdmissionError>)
    ensures
        (match r {
            Ok(payload) => Ok(payload),
            Err(error) => Err(error@),
        }) == handoff_payload(*request, source_operation),
{
    let operation_id = match request.operation_id {
        Some(id) => id,
        None => {
            return Err(RelocationAdmissionError::Missing(HandoffField::OperationId));
        },
    };
    let chunk_id = match request.chunk_id {
        Some(id) => id,
        None => {
            return Err(RelocationAdmissionError::Missing(HandoffField::ChunkId));
        },
    };
    let source = match request.source {
        Some(segment) => segment,
        None => {
            return Err(RelocationAdmissionError::Missing(HandoffField::Source));
        },
    };
    let target = match request.target {
        Some(segment) => segment,
        None => {
            return Err(RelocationAdmissionError::Missing(HandoffField::Target));
        },
    };
    if source == target || source_operation != Some(operation_id) || source.disk_id.is_none()
        || target.disk_id.is_none() || source.owner_chunk != Some(chunk_id) || target.owner_chunk
        != Some(chunk_id) || source.unit_count == 0 || source.unit_count != target.unit_count
        || source.allocation_ts == 0 || target.allocation_ts == 0 {
        return Err(RelocationAdmissionError::InvalidGeometry);
    }
    Ok(
        RelocateSegmentTaskPayload {
            operation_id,
            chunk_id,
            source,
            target,
            disposition: RelocateSegmentTaskDisposition::Accepted,
            expected_modify_ts: None,
            strip_index: None,
            source_free_not_before_ms: 0,
        },
    )
}

/// The task of a handoff.
pub fn make_task(
    payload: &RelocateSegmentTaskPayload,
    encoded: Vec<u8>,
    versions: TaskVersions,
    now_ms: u64,
) -> (r: ChunkTaskValue)
    ensures
        r@ == (TaskModel {
            schema_version: versions.schema,
            task_id: payload.operation_id,
            partition_id: payload.chunk_id,
            kind: TaskKind::RelocateSegment,
            kind_version: versions.payload,
            state: ChunkTaskState::Pending,
            priority: 254,
            revision: 1,
            operation_id: payload.operation_id,
            source_revision: 0,
            created_at_ms: now_ms,
            updated_at_ms: now_ms,
            eligible_at_ms: now_ms,
            attempt: 0,
            max_attempts: u32::MAX,
            estimated_queue_bytes: payload.target.unit_count as u64,
            claim_owner: 0,
            claim_generation: 0,
            claim_deadline_ms: 0,
            last_error_code: 0,
            last_error: Seq::empty(),
            payload: encoded@,
        }),
{
    let task = ChunkTaskValue {
        schema_version: versions.schema,
        task_id: payload.operation_id,
        partition_id: payload.chunk_id,
        kind: TaskKind::RelocateSegment,
        kind_version: versions.payload,
        state: ChunkTaskState::Pending,
        priority: u8::MAX - 1,
        revision: 1,
        operation_id: payload.operation_id,
        source_revision: 0,
        created_at_ms: now_ms,
        updated_at_ms: now_ms,
        eligible_at_ms: now_ms,
        attempt: 0,
        max_attempts: u32::MAX,
        estimated_queue_bytes: payload.target.unit_count as u64,
        claim_owner: 0,
        claim_generation: 0,
        claim_deadline_ms: 0,
        last_error_code: 0,
        last_error: String::new(),
        payload: encoded,
    };
    task
}

/// Both checkpoints are of the same handoff.
pub open spec fn same_handoff(
    a: RelocateSegmentTaskPayload,
    b: RelocateSegmentTaskPayload,
) -> bool {
    a.operation_id == b.operation_id && a.chunk_id == b.chunk_id && a.source == b.source && a.target
        == b.target
}

/// The disposition as a handoff is answered.
pub open spec fn answered(disposition: RelocateSegmentTaskDisposition) -> RelocationHandoffDisposition {
    match disposition {
        RelocateSegmentTaskDisposition::Accepted => RelocationHandoffDisposition::Accepted,
        RelocateSegmentTaskDisposition::Published => RelocationHandoffDisposition::Published,
        RelocateSegmentTaskDisposition::Stale => RelocationHandoffDisposition::Stale,
        RelocateSegmentTaskDisposition::Rejected => RelocationHandoffDisposition::Rejected,
    }
}

/// The disposition as a handoff is answered.
pub fn to_handoff_disposition(disposition: RelocateSegmentTaskDisposition) -> (r:
    RelocationHandoffDisposition)
    ensures
        r == answered(disposition),
{
    match disposition {
        RelocateSegmentTaskDisposition::Accepted => RelocationHandoffDisposition::Accepted,
        RelocateSegmentTaskDisposition::Published => RelocationHandoffDisposition::Published,
        RelocateSegmentTaskDisposition::Stale => RelocationHandoffDisposition::Stale,
        RelocateSegmentTaskDisposition::Rejected => RelocationHandoffDisposition::Rejected,
    }
}

/// Answers a handoff from the task that is stored for it.
pub fn answer_handoff(
    payload: &RelocateSegmentTaskPayload,
    stored_state: ChunkTaskState,
    stored: &RelocateSegmentTaskPayload,
) -> (r: Result<RelocationHandoffDisposition, RelocationAdmissionError>)
    ensures
        match r {
            Ok(disposition) => same_handoff(*stored, *payload) && disposition == (
            if stored_state == ChunkTaskState::Failed || stored_state == ChunkTaskState::Cancelled {
                RelocationHandoffDisposition::Rejected
            } else {
                answered(stored.disposition)
            }),
            Err(error) => !same_handoff(*stored, *payload) && error@
                == RelocationErrorModel::IdentityConflict,
        },
{
    if stored.operation_id != payload.operation_id || stored.chunk_id != payload.chunk_id
        || stored.source != payload.source || stored.target != payload.target {
        return Err(RelocationAdmissionError::IdentityConflict);
    }
    match stored_state {
        ChunkTaskState::Failed | ChunkTaskState::Cancelled => Ok(
            RelocationHandoffDisposition::Rejected,
        ),
        _ => Ok(to_handoff_disposition(stored.disposition)),
    }
}

/// A handoff is answered by the disposition of its task, and two tasks of different
/// dispositions are answered differently.
pub proof fn law_answers_tell_dispositions_apart(
    a: RelocateSegmentTaskDisposition,
    b: RelocateSegmentTaskDisposition,
)
    ensures
        answered(a) == answered(b) <==> a == b,
        answered(a) == RelocationHandoffDisposition::Accepted <==> a
            == RelocateSegmentTaskDisposition::Accepted,
        answered(a) == RelocationHandoffDisposition::Published <==> a
            == RelocateSegmentTaskDisposition::Published,
        answered(a) == RelocationHandoffDisposition::Stale <==> a
            == RelocateSegmentTaskDisposition::Stale,
{
}

} // verus!
