//! Client-side conversion without rereading, and admission of background
//! conversions.
use vstd::prelude::*;
use crate::arith::{clip_u64, max_u64, sat_add_u64};
use crate::conversion::{
    candidate_group, conversion_operation_id, conversion_task_id, is_candidate, matches_request,
    operation_id_of, requested, source_valid, strip_bytes, task_id_of, validate_source,
    ConversionError, ConversionErrorModel, ConversionModel, MirrorToEcPhase, MirrorToEcTaskV1,
};
use crate::lifecycle::reservation::{GroupModel, StripReservationGroup};
use crate::task::{ChunkTaskState, ChunkTaskValue, TaskKind, TaskModel, TaskVersions};
use crate::text::text;
use crate::types::{
    copy_strip_range, copy_strips, strip_models, total_capacity, Chunk, ChunkId, ChunkModel,
    ChunkState, ChunkStrip, EcState, EcStrip, LayoutModel, Strip, StripModel,
};

verus! {

/// Chunks of a batch where the request names no number.
pub const DEFAULT_BATCH_CHUNKS: u32 = 256;

/// Attempts of a conversion.
pub const MAX_CONVERSION_ATTEMPTS: u32 = 16;

/// Priority of a background conversion.
pub const BACKGROUND_PRIORITY: u8 = 128;

/// A mirror range to convert, and the scheme.
#[derive(Debug)]
pub struct ConversionRequest {
    pub chunk_id: ChunkId,
    pub expected_modify_ts: u64,
    pub start_index: u32,
    pub old_strips: Vec<ChunkStrip>,
    pub data_num: u32,
    pub code_num: u32,
}

/// Model of a request.
pub struct RequestModel {
    pub chunk_id: ChunkId,
    pub expected_modify_ts: u64,
    pub start_index: u32,
    pub old_strips: Seq<StripModel>,
    pub data_num: u32,
    pub code_num: u32,
}

impl View for ConversionRequest {
    type V = RequestModel;

    open spec fn view(&self) -> RequestModel {
        RequestModel {
            chunk_id: self.chunk_id,
            expected_modify_ts: self.expected_modify_ts,
            start_index: self.start_index,
            old_strips: strip_models(self.old_strips@),
            data_num: self.data_num,
            code_num: self.code_num,
        }
    }
}

impl RequestModel {
    /// The chunk holds the requested mirrors.
    pub open spec fn valid_in(self, chunk: ChunkModel) -> bool {
        source_valid(chunk, self.expected_modify_ts, self.start_index as int, self.old_strips)
    }

    /// Identity of the request's task.
    pub open spec fn task_id(self) -> ChunkId {
        task_id_of(self.old_strips[0].strip_sequence, self.data_num, self.code_num)
    }

    /// Identity of the request's strip replacement.
    pub open spec fn operation_id(self) -> ChunkId {
        operation_id_of(self.chunk_id, self.task_id())
    }

    /// The first checkpoint of the request.
    pub open spec fn payload(self) -> ConversionModel {
        ConversionModel {
            chunk_id: self.chunk_id,
            expected_modify_ts: self.expected_modify_ts,
            start_index: self.start_index,
            old_strips: self.old_strips,
            data_num: self.data_num,
            code_num: self.code_num,
            replacement_strip: None,
            phase: MirrorToEcPhase::Discovered,
        }
    }
}

/// A conversion whose replacement is allocated.
#[derive(Debug)]
pub struct PreparedConversion {
    pub task_id: ChunkId,
    pub operation_id: ChunkId,
    pub replacement_strip: ChunkStrip,
}

/// What preparing a conversion takes.
#[derive(Debug)]
pub enum PrepareStep {
    /// The replacement is allocated.
    Ready(PreparedConversion),
    /// Allocate a replacement for the stored task.
    Allocate { task_id: ChunkId, operation_id: ChunkId, payload: MirrorToEcTaskV1 },
    /// Store a task with this checkpoint, then allocate a replacement.
    Create { task_id: ChunkId, operation_id: ChunkId, payload: MirrorToEcTaskV1 },
}

/// Model of a preparation.
pub enum PrepareModel {
    Ready { task_id: ChunkId, operation_id: ChunkId, replacement_strip: StripModel },
    Allocate { task_id: ChunkId, operation_id: ChunkId, payload: ConversionModel },
    Create { task_id: ChunkId, operation_id: ChunkId, payload: ConversionModel },
}

impl View for PrepareStep {
    type V = PrepareModel;

    open spec fn view(&self) -> PrepareModel {
        match self {
            PrepareStep::Ready(prepared) => PrepareModel::Ready {
                task_id: prepared.task_id,
                operation_id: prepared.operation_id,
                replacement_strip: prepared.replacement_strip@,
            },
            PrepareStep::Allocate { task_id, operation_id, payload } => PrepareModel::Allocate {
                task_id: *task_id,
                operation_id: *operation_id,
                payload: payload@,
            },
            PrepareStep::Create { task_id, operation_id, payload } => PrepareModel::Create {
                task_id: *task_id,
                operation_id: *operation_id,
                payload: payload@,
            },
        }
    }
}

/// A stored task, with its checkpoint or the text of why it cannot be read.
#[derive(Debug)]
pub struct StoredConversion {
    pub task: ChunkTaskValue,
    pub payload: Result<MirrorToEcTaskV1, String>,
}

/// Model of a stored conversion.
pub struct StoredModel {
    pub task: TaskModel,
    pub payload: Result<ConversionModel, Seq<char>>,
}

impl View for StoredConversion {
    type V = StoredModel;

    open spec fn view(&self) -> StoredModel {
        StoredModel {
            task: self.task@,
            payload: match self.payload {
                Ok(payload) => Ok(payload@),
                Err(message) => Err(message@),
            },
        }
    }
}

/// Model of a conversion that may be stored.
pub open spec fn stored_option(stored: Option<StoredConversion>) -> Option<StoredModel> {
    match stored {
        Some(s) => Some(s@),
        None => None,
    }
}

/// What preparing a conversion takes, or why it is refused.
pub open spec fn prepare_step(
    chunk: ChunkModel,
    request: RequestModel,
    client_owner: u64,
    stored: Option<StoredModel>,
) -> Result<PrepareModel, ConversionErrorModel> {
    let task_id = request.task_id();
    let operation_id = request.operation_id();
    if !request.valid_in(chunk) {
        Err(ConversionErrorModel::Conflict)
    } else {
        match stored {
            None => Ok(PrepareModel::Create { task_id, operation_id, payload: request.payload() }),
            Some(stored) => match stored.payload {
                Err(message) => Err(ConversionErrorModel::Payload(message)),
                Ok(payload) => if !requested(
                    payload,
                    request.chunk_id,
                    request.expected_modify_ts,
                    request.start_index,
                    request.old_strips,
                    request.data_num,
                    request.code_num,
                ) {
                    Err(ConversionErrorModel::Conflict)
                } else if stored.task.state == ChunkTaskState::Completed {
                    match payload.replacement_strip {
                        Some(replacement_strip) => Ok(
                            PrepareModel::Ready { task_id, operation_id, replacement_strip },
                        ),
                        None => Err(ConversionErrorModel::Conflict),
                    }
                } else if stored.task.state != ChunkTaskState::Running || stored.task.claim_owner
                    != client_owner {
                    Err(ConversionErrorModel::StaleClaim)
                } else {
                    match payload.replacement_strip {
                        Some(replacement_strip) => Ok(
                            PrepareModel::Ready { task_id, operation_id, replacement_strip },
                        ),
                        None => Ok(PrepareModel::Allocate { task_id, operation_id, payload }),
                    }
                },
            },
        }
    }
}

/// The checkpoint once a replacement is allocated.
pub open spec fn with_replacement(payload: ConversionModel, replacement: StripModel) -> ConversionModel {
    ConversionModel {
        replacement_strip: Some(replacement),
        phase: MirrorToEcPhase::Allocated,
        ..payload
    }
}

/// The checkpoint once a replacement is allocated.
pub fn record_allocation(payload: MirrorToEcTaskV1, replacement: ChunkStrip) -> (r: MirrorToEcTaskV1)
    ensures
        r@ == with_replacement(payload@, replacement@),
{
    let mut next = payload;
    next.replacement_strip = Some(replacement);
    next.phase = MirrorToEcPhase::Allocated;
    next
}

/// A task with another checkpoint.
pub open spec fn with_checkpoint(task: TaskModel, payload: Seq<u8>, now_ms: u64) -> TaskModel {
    TaskModel {
        revision: clip_u64(task.revision + 1),
        updated_at_ms: now_ms,
        payload,
        ..task
    }
}

/// Stores a checkpoint in a task.
pub fn checkpoint_task(task: &ChunkTaskValue, payload: Vec<u8>, now_ms: u64) -> (r: ChunkTaskValue)
    ensures
        r@ == with_checkpoint(task@, payload@, now_ms),
{
    let mut next = task.clone();
    next.revision = sat_add_u64(next.revision, 1);
    next.updated_at_ms = now_ms;
    next.payload = payload;
    next
}

/// What completing a conversion takes.
#[derive(Debug)]
pub enum CompleteStep {
    /// The task is complete: answer with the stored chunk.
    Answer,
    /// Replace the strip range, then store the task with this checkpoint.
    Publish { payload: MirrorToEcTaskV1, replacement: ChunkStrip },
}

/// Model of a completion.
pub enum CompleteModel {
    Answer,
    Publish { payload: ConversionModel, replacement: StripModel },
}

impl View for CompleteStep {
    type V = CompleteModel;

    open spec fn view(&self) -> CompleteModel {
        match self {
            CompleteStep::Answer => CompleteModel::Answer,
            CompleteStep::Publish { payload, replacement } => CompleteModel::Publish {
                payload: payload@,
                replacement: replacement@,
            },
        }
    }
}

/// The strip with its parity written.
pub open spec fn with_parity(strip: StripModel) -> StripModel {
    StripModel {
        strip: match strip.strip {
            Some(LayoutModel::Ec { data_num, code_num, segments, .. }) => Some(
                LayoutModel::Ec { data_num, code_num, ec_state: EcState::Parity, segments },
            ),
            other => other,
        },
        ..strip
    }
}

/// The strip holds data and parity shards.
pub open spec fn is_ec(strip: StripModel) -> bool {
    strip.strip matches Some(LayoutModel::Ec { .. })
}

/// Marks the parity of an erasure-coded strip as written; none for any other
/// strip.
pub fn mark_parity(strip: &ChunkStrip) -> (r: Option<ChunkStrip>)
    ensures
        match r {
            Some(next) => is_ec(strip@) && next@ == with_parity(strip@),
            None => !is_ec(strip@),
        },
{
    let mut next = strip.clone();
    match &strip.strip {
        Some(Strip::EcStrip(ec)) => {
            next.strip =
            Some(
                Strip::EcStrip(
                    EcStrip {
                        data_num: ec.data_num,
                        code_num: ec.code_num,
                        ec_state: EcState::Parity,
                        segments: crate::types::copy_segments(&ec.segments),
                    },
                ),
            );
            Some(next)
        },
        _ => None,
    }
}

/// What completing a conversion takes, or why it is refused.
pub open spec fn complete_step(stored: Option<StoredModel>, client_owner: u64) -> Result<
    CompleteModel,
    ConversionErrorModel,
> {
    match stored {
        None => Err(ConversionErrorModel::Conflict),
        Some(stored) => if stored.task.state == ChunkTaskState::Completed {
            Ok(CompleteModel::Answer)
        } else if stored.task.state != ChunkTaskState::Running || stored.task.claim_owner
            != client_owner {
            Err(ConversionErrorModel::StaleClaim)
        } else {
            match stored.payload {
                Err(message) => Err(ConversionErrorModel::Payload(message)),
                Ok(payload) => match payload.replacement_strip {
                    None => Err(ConversionErrorModel::Conflict),
                    Some(strip) => if !is_ec(strip) {
                        Err(ConversionErrorModel::Payload("replacement is not EC"@))
                    } else {
                        Ok(
                            CompleteModel::Publish {
                                payload: ConversionModel {
                                    replacement_strip: Some(with_parity(strip)),
                                    phase: MirrorToEcPhase::Published,
                                    ..payload
                                },
                                replacement: with_parity(strip),
                            },
                        )
                    },
                },
            }
        },
    }
}

/// A completed conversion task.
pub open spec fn completed_task(task: TaskModel, payload: Seq<u8>, now_ms: u64) -> TaskModel {
    TaskModel {
        state: ChunkTaskState::Completed,
        claim_owner: 0,
        claim_deadline_ms: 0,
        ..with_checkpoint(task, payload, now_ms)
    }
}

/// Ends a conversion task with its last checkpoint.
pub fn finish_task(task: &ChunkTaskValue, payload: Vec<u8>, now_ms: u64) -> (r: ChunkTaskValue)
    ensures
        r@ == completed_task(task@, payload@, now_ms),
{
    let mut next = checkpoint_task(task, payload, now_ms);
    next.state = ChunkTaskState::Completed;
    next.claim_owner = 0;
    next.claim_deadline_ms = 0;
    next
}

/// The task of a client that converts itself.
pub open spec fn client_task(
    task_id: ChunkId,
    operation_id: ChunkId,
    payload: ConversionModel,
    bytes: Seq<u8>,
    client_owner: u64,
    lease_ms: u64,
    now_ms: u64,
    versions: TaskVersions,
) -> TaskModel {
    TaskModel {
        schema_version: versions.schema,
        task_id,
        partition_id: payload.chunk_id,
        kind: TaskKind::MirrorToEc,
        kind_version: versions.payload,
        state: ChunkTaskState::Running,
        priority: u8::MAX,
        revision: 1,
        operation_id,
        source_revision: payload.expected_modify_ts,
        created_at_ms: now_ms,
        updated_at_ms: now_ms,
        eligible_at_ms: 0,
        attempt: 1,
        max_attempts: MAX_CONVERSION_ATTEMPTS,
        estimated_queue_bytes: (total_capacity(payload.old_strips) * 1024) as u64,
        claim_owner: client_owner,
        claim_generation: 1,
        claim_deadline_ms: clip_u64(now_ms + (if lease_ms == 0 {
            1
        } else {
            lease_ms
        })),
        last_error_code: 0,
        last_error: Seq::empty(),
        payload: bytes,
    }
}

/// The task of a client that converts itself; `bytes` holds the checkpoint.
pub fn make_client_task(
    task_id: ChunkId,
    operation_id: ChunkId,
    payload: &MirrorToEcTaskV1,
    bytes: Vec<u8>,
    client_owner: u64,
    lease_ms: u64,
    now_ms: u64,
    versions: TaskVersions,
) -> (r: ChunkTaskValue)
    requires
        total_capacity(payload@.old_strips) * 1024 <= u64::MAX,
    ensures
        r@ == client_task(
            task_id,
            operation_id,
            payload@,
            bytes@,
            client_owner,
            lease_ms,
            now_ms,
            versions,
        ),
{
    let estimated: u64 = strip_bytes(&payload.old_strips);
    let last_error = String::new();
    assert(last_error@ =~= Seq::<char>::empty());
    ChunkTaskValue {
        schema_version: versions.schema,
        task_id,
        partition_id: payload.chunk_id,
        kind: TaskKind::MirrorToEc,
        kind_version: versions.payload,
        state: ChunkTaskState::Running,
        priority: u8::MAX,
        revision: 1,
        operation_id,
        source_revision: payload.expected_modify_ts,
        created_at_ms: now_ms,
        updated_at_ms: now_ms,
        eligible_at_ms: 0,
        attempt: 1,
        max_attempts: MAX_CONVERSION_ATTEMPTS,
        estimated_queue_bytes: estimated,
        claim_owner: client_owner,
        claim_generation: 1,
        claim_deadline_ms: sat_add_u64(now_ms, max_u64(lease_ms, 1)),
        last_error_code: 0,
        last_error,
        payload: bytes,
    }
}

/// The task of a background conversion, which no one runs yet.
pub open spec fn background_task(
    task_id: ChunkId,
    operation_id: ChunkId,
    payload: ConversionModel,
    bytes: Seq<u8>,
    now_ms: u64,
    versions: TaskVersions,
) -> TaskModel {
    TaskModel {
        state: ChunkTaskState::Pending,
        attempt: 0,
        claim_generation: 0,
        claim_deadline_ms: 0,
        priority: BACKGROUND_PRIORITY,
        ..client_task(task_id, operation_id, payload, bytes, 0, 1, now_ms, versions)
    }
}

/// The task of a background conversion; `bytes` holds the checkpoint.
pub fn make_background_task(
    task_id: ChunkId,
    operation_id: ChunkId,
    payload: &MirrorToEcTaskV1,
    bytes: Vec<u8>,
    now_ms: u64,
    versions: TaskVersions,
) -> (r: ChunkTaskValue)
    requires
        total_capacity(payload@.old_strips) * 1024 <= u64::MAX,
    ensures
        r@ == background_task(task_id, operation_id, payload@, bytes@, now_ms, versions),
{
    let mut task = make_client_task(task_id, operation_id, payload, bytes, 0, 1, now_ms, versions);
    task.state = ChunkTaskState::Pending;
    task.attempt = 0;
    task.claim_generation = 0;
    task.claim_deadline_ms = 0;
    task.priority = BACKGROUND_PRIORITY;
    task
}

/// A group of mirrors to convert in the background.
#[derive(Debug)]
pub struct GroupPlan {
    pub task_id: ChunkId,
    pub operation_id: ChunkId,
    pub payload: MirrorToEcTaskV1,
}

/// Model of a group plan.
pub struct GroupPlanModel {
    pub task_id: ChunkId,
    pub operation_id: ChunkId,
    pub payload: ConversionModel,
}

impl View for GroupPlan {
    type V = GroupPlanModel;

    open spec fn view(&self) -> GroupPlanModel {
        GroupPlanModel {
            task_id: self.task_id,
            operation_id: self.operation_id,
            payload: self.payload@,
        }
    }
}

/// Where the groups of a chunk begin: from the first strip on, the next group
/// that is a candidate, then behind it.
pub open spec fn group_starts(
    chunk: ChunkModel,
    width: int,
    enforce_age: bool,
    min_age_ms: u64,
    now_ms: u64,
    start: int,
) -> Seq<int>
    decreases chunk.strips.len() - start,
{
    if width <= 0 || start < 0 || start + width > chunk.strips.len() {
        Seq::empty()
    } else if is_candidate(
        chunk,
        chunk.strips.subrange(start, start + width),
        enforce_age,
        min_age_ms,
        now_ms,
    ) {
        seq![start] + group_starts(
            chunk,
            width,
            enforce_age,
            min_age_ms,
            now_ms,
            start + width,
        )
    } else {
        group_starts(chunk, width, enforce_age, min_age_ms, now_ms, start + 1)
    }
}

/// The conversion of the group that begins at `start`.
pub open spec fn group_plan(
    chunk: ChunkModel,
    chunk_id: ChunkId,
    start: int,
    data_num: u32,
    code_num: u32,
) -> GroupPlanModel {
    let old_strips = chunk.strips.subrange(start, start + data_num);
    let task_id = task_id_of(old_strips[0].strip_sequence, data_num, code_num);
    GroupPlanModel {
        task_id,
        operation_id: operation_id_of(chunk_id, task_id),
        payload: ConversionModel {
            chunk_id,
            expected_modify_ts: chunk.modify_ts,
            start_index: crate::arith::clip_u32(start),
            old_strips,
            data_num,
            code_num,
            replacement_strip: None,
            phase: MirrorToEcPhase::Discovered,
        },
    }
}

/// Models of a run of group plans.
pub open spec fn plan_models(plans: Seq<GroupPlan>) -> Seq<GroupPlanModel> {
    Seq::new(plans.len(), |i: int| plans[i]@)
}

/// The conversions of a chunk, or why it has none.
pub open spec fn groups_of(
    chunk: ChunkModel,
    data_num: u32,
    code_num: u32,
    now_ms: u64,
    enforce_age: bool,
    min_age_ms: u64,
) -> Result<Seq<GroupPlanModel>, ConversionErrorModel> {
    if data_num == 0 || code_num == 0 {
        Err(ConversionErrorModel::Payload("invalid EC scheme"@))
    } else {
        match chunk.id {
            None => Err(ConversionErrorModel::Payload("chunk has no id"@)),
            Some(chunk_id) => {
                let starts = group_starts(
                    chunk,
                    data_num as int,
                    enforce_age,
                    min_age_ms,
                    now_ms,
                    0,
                );
                Ok(
                    Seq::new(
                        starts.len(),
                        |i: int| group_plan(chunk, chunk_id, starts[i], data_num, code_num),
                    ),
                )
            },
        }
    }
}

/// The groups of a chunk do not overlap, lie within it, and each is a valid
/// source.
pub proof fn law_groups_are_disjoint_sources(
    chunk: ChunkModel,
    width: int,
    enforce_age: bool,
    min_age_ms: u64,
    now_ms: u64,
    start: int,
)
    requires
        0 < width,
        0 <= start,
    ensures
        ({
            let starts = group_starts(chunk, width, enforce_age, min_age_ms, now_ms, start);
            &&& forall|i: int|
                0 <= i < starts.len() ==> start <= #[trigger] starts[i] && starts[i] + width
                    <= chunk.strips.len() && source_valid(
                    chunk,
                    chunk.modify_ts,
                    starts[i],
                    chunk.strips.subrange(starts[i], starts[i] + width),
                )
            &&& forall|i: int, j: int|
                0 <= i < j < starts.len() ==> #[trigger] starts[i] + width <= #[trigger] starts[j]
        }),
    decreases chunk.strips.len() - start,
{
    let starts = group_starts(chunk, width, enforce_age, min_age_ms, now_ms, start);
    if start + width <= chunk.strips.len() {
        if is_candidate(
            chunk,
            chunk.strips.subrange(start, start + width),
            enforce_age,
            min_age_ms,
            now_ms,
        ) {
            let rest = group_starts(chunk, width, enforce_age, min_age_ms, now_ms, start + width);
            law_groups_are_disjoint_sources(
                chunk,
                width,
                enforce_age,
                min_age_ms,
                now_ms,
                start + width,
            );
            crate::conversion::law_candidate_is_valid_source(
                chunk,
                start,
                width,
                enforce_age,
                min_age_ms,
                now_ms,
            );
            assert(starts[0] == start);
            assert forall|i: int| 0 < i < starts.len() implies #[trigger] starts[i] == rest[i - 1] by {}
            assert forall|i: int| 0 <= i < starts.len() implies start <= #[trigger] starts[i]
                && starts[i] + width <= chunk.strips.len() && source_valid(
                chunk,
                chunk.modify_ts,
                starts[i],
                chunk.strips.subrange(starts[i], starts[i] + width),
            ) by {
                if i > 0 {
                    assert(start + width <= rest[i - 1]);
                }
            }
            assert forall|i: int, j: int| 0 <= i < j < starts.len() implies #[trigger] starts[i]
                + width <= #[trigger] starts[j] by {
                assert(start + width <= rest[j - 1]);
                if i > 0 {
                    assert(rest[i - 1] + width <= rest[j - 1]);
                }
            }
        } else {
            law_groups_are_disjoint_sources(chunk, width, enforce_age, min_age_ms, now_ms, start + 1);
            let rest = group_starts(chunk, width, enforce_age, min_age_ms, now_ms, start + 1);
            assert(starts == rest);
            assert forall|i: int| 0 <= i < starts.len() implies start <= #[trigger] starts[i]
                && starts[i] + width <= chunk.strips.len() && source_valid(
                chunk,
                chunk.modify_ts,
                starts[i],
                chunk.strips.subrange(starts[i], starts[i] + width),
            ) by {
                assert(start + 1 <= rest[i]);
            }
        }
    }
}

/// Asking again for a conversion that was prepared, of a chunk that did not
/// change, gives the same replacement.
pub proof fn law_prepare_retry(
    chunk: ChunkModel,
    request: RequestModel,
    client_owner: u64,
    task: TaskModel,
    replacement: StripModel,
)
    requires
        request.valid_in(chunk),
        task.state == ChunkTaskState::Completed || (task.state == ChunkTaskState::Running
            && task.claim_owner == client_owner),
    ensures
        prepare_step(chunk, request, client_owner, None) matches Ok(PrepareModel::Create {
            task_id,
            operation_id,
            payload,
        }) && prepare_step(
            chunk,
            request,
            client_owner,
            Some(StoredModel { task, payload: Ok(with_replacement(payload, replacement)) }),
        ) == Ok::<PrepareModel, ConversionErrorModel>(
            PrepareModel::Ready { task_id, operation_id, replacement_strip: replacement },
        ),
{
}

/// Number of mirrored strips.
pub open spec fn mirrored(strips: Seq<StripModel>) -> nat
    decreases strips.len(),
{
    if strips.len() == 0 {
        0
    } else {
        mirrored(strips.drop_last()) + (if crate::conversion::is_mirror(strips.last()) {
            1nat
        } else {
            0nat
        })
    }
}

fn count_mirrored(strips: &[ChunkStrip]) -> (r: usize)
    ensures
        r == mirrored(strip_models(strips@)),
{
    let ghost models = strip_models(strips@);
    let mut count: usize = 0;
    let mut i: usize = 0;
    while i < strips.len()
        invariant
            i <= strips.len(),
            count <= i,
            models == strip_models(strips@),
            count == mirrored(models.take(i as int)),
        decreases strips.len() - i,
    {
        proof {
            assert(models.take(i + 1).drop_last() =~= models.take(i as int));
            assert(models.take(i + 1).last() == strips@[i as int]@);
        }
        match &strips[i].strip {
            Some(Strip::MirrorStrip(_)) => {
                count = count + 1;
            },
            _ => {},
        }
        i = i + 1;
    }
    assert(models.take(i as int) =~= models);
    count
}

/// Policy of background conversions.
#[derive(Debug, Clone, Copy, PartialEq, Eq, Structural)]
pub struct ConversionCoordinator {
    pub data_num: u32,
    pub code_num: u32,
    pub min_mirror_strips: u32,
    pub min_age_ms: u64,
}

/// Model of a list of conversions.
pub open spec fn groups_result(r: Result<Vec<GroupPlan>, ConversionError>) -> Result<
    Seq<GroupPlanModel>,
    ConversionErrorModel,
> {
    match r {
        Ok(plans) => Ok(plan_models(plans@)),
        Err(error) => Err(error@),
    }
}

impl ConversionCoordinator {
    /// The default policy.
    pub fn new() -> (r: Self)
        ensures
            r == (ConversionCoordinator {
                data_num: 8,
                code_num: 4,
                min_mirror_strips: 8,
                min_age_ms: 3_600_000,
            }),
    {
        ConversionCoordinator {
            data_num: 8,
            code_num: 4,
            min_mirror_strips: 8,
            min_age_ms: 3_600_000,
        }
    }

    /// Another policy.
    pub fn with_policy(
        self,
        data_num: u32,
        code_num: u32,
        min_mirror_strips: u32,
        min_age_ms: u64,
    ) -> (r: Self)
        ensures
            r == (ConversionCoordinator { data_num, code_num, min_mirror_strips, min_age_ms }),
    {
        ConversionCoordinator { data_num, code_num, min_mirror_strips, min_age_ms }
    }

    /// The task and the strip replacement of a valid request.
    pub fn identify(chunk: &Chunk, request: &ConversionRequest) -> (r: Result<
        (ChunkId, ChunkId),
        ConversionError,
    >)
        ensures
            match r {
                Ok(ids) => request@.valid_in(chunk@) && ids == (
                    request@.task_id(),
                    request@.operation_id(),
                ),
                Err(error) => !request@.valid_in(chunk@) && error@ == ConversionErrorModel::Conflict,
            },
    {
        match validate_source(
            chunk,
            request.expected_modify_ts,
            request.start_index,
            &request.old_strips,
        ) {
            Ok(_) => {},
            Err(error) => {
                return Err(error);
            },
        }
        assert(request@.old_strips[0] == request.old_strips@[0]@);
        match conversion_task_id(&request.old_strips, request.data_num, request.code_num) {
            Ok(task_id) => Ok((task_id, conversion_operation_id(request.chunk_id, task_id))),
            Err(error) => Err(error),
        }
    }

    /// Prepares a conversion: `stored` is what the task store holds under the
    /// identity of the request.
    pub fn prepare(
        chunk: &Chunk,
        request: &ConversionRequest,
        client_owner: u64,
        stored: Option<StoredConversion>,
    ) -> (r: Result<PrepareStep, ConversionError>)
        ensures
            (match r {
                Ok(step) => Ok::<PrepareModel, ConversionErrorModel>(step@),
                Err(error) => Err(error@),
            }) == prepare_step(chunk@, request@, client_owner, stored_option(stored)),
    {
        let (task_id, operation_id) = match Self::identify(chunk, request) {
            Ok(ids) => ids,
            Err(error) => {
                return Err(error);
            },
        };
        let stored = match stored {
            Some(stored) => stored,
            None => {
                let payload = MirrorToEcTaskV1 {
                    chunk_id: request.chunk_id,
                    expected_modify_ts: request.expected_modify_ts,
                    start_index: request.start_index,
                    old_strips: copy_strips(&request.old_strips),
                    data_num: request.data_num,
                    code_num: request.code_num,
                    replacement_strip: None,
                    phase: MirrorToEcPhase::Discovered,
                };
                return Ok(PrepareStep::Create { task_id, operation_id, payload });
            },
        };
        let payload = match stored.payload {
            Ok(payload) => payload,
            Err(message) => {
                return Err(ConversionError::Payload(message));
            },
        };
        if !matches_request(
            &payload,
            request.chunk_id,
            request.expected_modify_ts,
            request.start_index,
            &request.old_strips,
            request.data_num,
            request.code_num,
        ) {
            return Err(ConversionError::Conflict);
        }
        let completed = stored.task.state == ChunkTaskState::Completed;
        if !completed && (stored.task.state != ChunkTaskState::Running || stored.task.claim_owner
            != client_owner) {
            return Err(ConversionError::StaleClaim);
        }
        match &payload.replacement_strip {
            Some(strip) => {
                return Ok(
                    PrepareStep::Ready(
                        PreparedConversion {
                            task_id,
                            operation_id,
                            replacement_strip: strip.clone(),
                        },
                    ),
                );
            },
            None => {},
        }
        if completed {
            return Err(ConversionError::Conflict);
        }
        Ok(PrepareStep::Allocate { task_id, operation_id, payload })
    }

    /// Completes a conversion that a client wrote.
    pub fn complete(stored: Option<StoredConversion>, client_owner: u64) -> (r: Result<
        CompleteStep,
        ConversionError,
    >)
        ensures
            (match r {
                Ok(step) => Ok::<CompleteModel, ConversionErrorModel>(step@),
                Err(error) => Err(error@),
            }) == complete_step(stored_option(stored), client_owner),
    {
        let stored = match stored {
            Some(stored) => stored,
            None => {
                return Err(ConversionError::Conflict);
            },
        };
        if stored.task.state == ChunkTaskState::Completed {
            return Ok(CompleteStep::Answer);
        }
        if stored.task.state != ChunkTaskState::Running || stored.task.claim_owner != client_owner {
            return Err(ConversionError::StaleClaim);
        }
        let payload = match stored.payload {
            Ok(payload) => payload,
            Err(message) => {
                return Err(ConversionError::Payload(message));
            },
        };
        let replacement = match &payload.replacement_strip {
            Some(strip) => match mark_parity(strip) {
                Some(replacement) => replacement,
                None => {
                    return Err(ConversionError::Payload(text("replacement is not EC")));
                },
            },
            None => {
                return Err(ConversionError::Conflict);
            },
        };
        let mut payload = payload;
        payload.replacement_strip = Some(replacement.clone());
        payload.phase = MirrorToEcPhase::Published;
        Ok(CompleteStep::Publish { payload, replacement })
    }

    /// The conversions of a chunk. Those whose task is stored already need
    /// nothing more.
    pub fn admit_groups(
        chunk: &Chunk,
        data_num: u32,
        code_num: u32,
        now_ms: u64,
        enforce_age: bool,
        min_age_ms: u64,
    ) -> (r: Result<Vec<GroupPlan>, ConversionError>)
        ensures
            groups_result(r) == groups_of(
                chunk@,
                data_num,
                code_num,
                now_ms,
                enforce_age,
                min_age_ms,
            ),
    {
        if data_num == 0 || code_num == 0 {
            return Err(ConversionError::Payload(text("invalid EC scheme")));
        }
        let chunk_id = match chunk.id {
            Some(id) => id,
            None => {
                return Err(ConversionError::Payload(text("chunk has no id")));
            },
        };
        let width: usize = data_num as usize;
        let n: usize = chunk.strips.len();
        let ghost whole = group_starts(
            chunk@,
            data_num as int,
            enforce_age,
            min_age_ms,
            now_ms,
            0,
        );
        let ghost mut done: Seq<int> = Seq::empty();
        let mut plans: Vec<GroupPlan> = Vec::new();
        let mut start: usize = 0;
        assert(done + whole =~= whole);
        while start < n && width <= n - start
            invariant
                start <= n,
                n == chunk.strips@.len(),
                width == data_num,
                data_num > 0,
                code_num > 0,
                chunk.id == Some(chunk_id),
                whole == group_starts(
                    chunk@,
                    data_num as int,
                    enforce_age,
                    min_age_ms,
                    now_ms,
                    0,
                ),
                whole == done + group_starts(
                    chunk@,
                    data_num as int,
                    enforce_age,
                    min_age_ms,
                    now_ms,
                    start as int,
                ),
                plans@.len() == done.len(),
                forall|i: int|
                    0 <= i < done.len() ==> (#[trigger] plans@[i])@ == group_plan(
                        chunk@,
                        chunk_id,
                        done[i],
                        data_num,
                        code_num,
                    ),
            decreases n - start,
        {
            let old_strips = copy_strip_range(&chunk.strips, start, start + width);
            let ghost range = chunk@.strips.subrange(start as int, start + data_num);
            assert(strip_models(old_strips@) == range);
            if candidate_group(chunk, &old_strips, enforce_age, min_age_ms, now_ms) {
                assert(range[0] == old_strips@[0]@);
                let task_id = match conversion_task_id(&old_strips, data_num, code_num) {
                    Ok(id) => id,
                    Err(error) => {
                        return Err(error);
                    },
                };
                let operation_id = conversion_operation_id(chunk_id, task_id);
                let payload = MirrorToEcTaskV1 {
                    chunk_id,
                    expected_modify_ts: chunk.modify_ts,
                    start_index: crate::arith::usize_to_u32(start),
                    old_strips,
                    data_num,
                    code_num,
                    replacement_strip: None,
                    phase: MirrorToEcPhase::Discovered,
                };
                plans.push(GroupPlan { task_id, operation_id, payload });
                proof {
                    let rest = group_starts(
                        chunk@,
                        data_num as int,
                        enforce_age,
                        min_age_ms,
                        now_ms,
                        start + width,
                    );
                    assert(done + (seq![start as int] + rest) =~= done.push(start as int) + rest);
                    done = done.push(start as int);
                }
                start = start + width;
            } else {
                start = start + 1;
            }
        }
        proof {
            assert(done + Seq::<int>::empty() =~= done);
            assert(plan_models(plans@) =~= Seq::new(
                whole.len(),
                |i: int| group_plan(chunk@, chunk_id, whole[i], data_num, code_num),
            ));
        }
        Ok(plans)
    }

    /// Chunks of a batch.
    pub fn batch_limit(max_chunks: u32) -> (r: u32)
        ensures
            r == (if max_chunks == 0 {
                DEFAULT_BATCH_CHUNKS
            } else {
                max_chunks
            }),
    {
        if max_chunks == 0 {
            DEFAULT_BATCH_CHUNKS
        } else {
            max_chunks
        }
    }

    /// Whether a scan considers the chunk at all.
    pub fn considers(chunk: &Chunk, sealed_only: bool, min_mirror_strips: u32) -> (r: bool)
        ensures
            r == ((sealed_only ==> chunk.state == ChunkState::Sealed) && mirrored(chunk@.strips)
                >= min_mirror_strips),
    {
        if sealed_only && chunk.state != ChunkState::Sealed {
            return false;
        }
        count_mirrored(&chunk.strips) >= min_mirror_strips as usize
    }
}

/// Where the next page of the reservation scan begins.
pub open spec fn reservation_cursor(
    current: Option<(ChunkId, ChunkId)>,
    groups: Seq<StripReservationGroup>,
) -> Option<(ChunkId, ChunkId)> {
    if groups.len() == 0 {
        None
    } else {
        match (groups.last().chunk_id, groups.last().group_id) {
            (Some(chunk_id), Some(group_id)) => Some((chunk_id, group_id)),
            _ => current,
        }
    }
}

/// Where the next page of the reservation scan begins: behind the last group,
/// or at the start again once there is none.
pub fn reservation_cursor_after(
    current: Option<(ChunkId, ChunkId)>,
    groups: &[StripReservationGroup],
) -> (r: Option<(ChunkId, ChunkId)>)
    ensures
        r == reservation_cursor(current, groups@),
{
    let n: usize = groups.len();
    if n == 0 {
        return None;
    }
    match (groups[n - 1].chunk_id, groups[n - 1].group_id) {
        (Some(chunk_id), Some(group_id)) => Some((chunk_id, group_id)),
        _ => current,
    }
}

/// The reservation to recover: its lease ran out and it names its chunk.
pub open spec fn due_recovery(group: GroupModel, now_ms: u64) -> Option<(ChunkId, ChunkId)> {
    if group.lease_deadline_ms > now_ms {
        None
    } else {
        match (group.chunk_id, group.group_id) {
            (Some(chunk_id), Some(group_id)) => Some((chunk_id, group_id)),
            _ => None,
        }
    }
}

/// The reservation to recover, where its lease ran out.
pub fn recovery_of(group: &StripReservationGroup, now_ms: u64) -> (r: Option<(ChunkId, ChunkId)>)
    ensures
        r == due_recovery(group@, now_ms),
{
    if group.lease_deadline_ms > now_ms {
        return None;
    }
    match (group.chunk_id, group.group_id) {
        (Some(chunk_id), Some(group_id)) => Some((chunk_id, group_id)),
        _ => None,
    }
}

} // verus!
