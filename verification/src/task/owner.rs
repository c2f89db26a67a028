//! Resolution of who owns one exact segment.
use vstd::prelude::*;
use crate::lifecycle::error::{LifecycleError, LifecycleErrorModel};
use crate::lifecycle::handler::chunk_result;
use crate::placement_repair::RepairTargetCheckpoint;
use crate::task::relocation::RelocateSegmentTaskPayload;
use crate::task::store::{TaskStoreError, TaskStoreErrorModel};
use crate::task::ChunkTaskState;
use crate::text::text;
use crate::types::{
    all_segments, contains_segment, extract_all_segments, strip_option_model, Chunk, ChunkId,
    ChunkModel, ChunkStrip, Segment, StripModel,
};

verus! {

/// Who owns a segment.
#[derive(Debug, Clone, Copy, PartialEq, Eq, Structural)]
pub enum SegmentOwnerDisposition {
    /// The chunk's record holds it.
    Referenced,
    /// An active task is about to publish it.
    TaskPending,
    /// No one does.
    Absent,
}

/// Why an owner could not be told. That is never the same as `Absent`: a block
/// whose owner cannot be told is kept.
#[derive(Debug)]
pub enum SegmentOwnerError {
    OwnerMismatch,
    Lifecycle(LifecycleError),
    Store(TaskStoreError),
    Checkpoint(String),
}

/// Model of an owner error.
pub enum OwnerErrorModel {
    OwnerMismatch,
    Lifecycle(LifecycleErrorModel),
    Store(TaskStoreErrorModel),
    Checkpoint(Seq<char>),
}

impl View for SegmentOwnerError {
    type V = OwnerErrorModel;

    open spec fn view(&self) -> OwnerErrorModel {
        match self {
            SegmentOwnerError::OwnerMismatch => OwnerErrorModel::OwnerMismatch,
            SegmentOwnerError::Lifecycle(e) => OwnerErrorModel::Lifecycle(e@),
            SegmentOwnerError::Store(e) => OwnerErrorModel::Store(e@),
            SegmentOwnerError::Checkpoint(m) => OwnerErrorModel::Checkpoint(m@),
        }
    }
}

impl OwnerErrorModel {
    /// Text of the error.
    pub open spec fn message(self) -> Seq<char> {
        match self {
            OwnerErrorModel::OwnerMismatch => "segment owner does not match queried chunk"@,
            OwnerErrorModel::Lifecycle(e) => e.message(),
            OwnerErrorModel::Store(e) => e.message(),
            OwnerErrorModel::Checkpoint(m) => "durable task checkpoint is invalid: "@ + m,
        }
    }
}

impl SegmentOwnerError {
    /// Text of the error.
    pub fn message(&self) -> (r: String)
        ensures
            r@ == self@.message(),
    {
        match self {
            SegmentOwnerError::OwnerMismatch => text("segment owner does not match queried chunk"),
            SegmentOwnerError::Lifecycle(e) => e.message(),
            SegmentOwnerError::Store(e) => e.message(),
            SegmentOwnerError::Checkpoint(m) => {
                let mut out = text("durable task checkpoint is invalid: ");
                out.append(m.as_str());
                out
            },
        }
    }
}

/// What the checkpoint of a task is about to publish.
#[derive(Debug)]
pub enum TaskCheckpoint {
    MirrorToEc(Option<ChunkStrip>),
    RepairStrip(Vec<RepairTargetCheckpoint>),
    RepairPlacement(Option<RepairTargetCheckpoint>),
    RelocateSegment(RelocateSegmentTaskPayload),
    /// A kind of task that publishes no segment.
    Other,
}

/// Model of a checkpoint.
pub enum CheckpointModel {
    MirrorToEc(Option<StripModel>),
    RepairStrip(Seq<RepairTargetCheckpoint>),
    RepairPlacement(Option<RepairTargetCheckpoint>),
    RelocateSegment(RelocateSegmentTaskPayload),
    Other,
}

impl View for TaskCheckpoint {
    type V = CheckpointModel;

    open spec fn view(&self) -> CheckpointModel {
        match self {
            TaskCheckpoint::MirrorToEc(strip) => CheckpointModel::MirrorToEc(
                strip_option_model(*strip),
            ),
            TaskCheckpoint::RepairStrip(targets) => CheckpointModel::RepairStrip(targets@),
            TaskCheckpoint::RepairPlacement(target) => CheckpointModel::RepairPlacement(*target),
            TaskCheckpoint::RelocateSegment(payload) => CheckpointModel::RelocateSegment(*payload),
            TaskCheckpoint::Other => CheckpointModel::Other,
        }
    }
}

impl CheckpointModel {
    /// The task is about to publish the segment.
    pub open spec fn owns(self, segment: Segment) -> bool {
        match self {
            CheckpointModel::MirrorToEc(strip) => strip is Some && strip->0.segments().contains(
                segment,
            ),
            CheckpointModel::RepairStrip(targets) => exists|i: int|
                0 <= i < targets.len() && (#[trigger] targets[i]).destination == segment,
            CheckpointModel::RepairPlacement(target) => target is Some && target->0.destination
                == segment,
            CheckpointModel::RelocateSegment(payload) => payload.target == segment,
            CheckpointModel::Other => false,
        }
    }
}

/// Whether a task is about to publish the segment.
pub fn task_owns_segment(checkpoint: &TaskCheckpoint, segment: &Segment) -> (r: bool)
    ensures
        r == checkpoint@.owns(*segment),
{
    match checkpoint {
        TaskCheckpoint::MirrorToEc(strip) => match strip {
            Some(strip) => contains_segment(&strip.extract_segments(), segment),
            None => false,
        },
        TaskCheckpoint::RepairStrip(targets) => {
            let mut i: usize = 0;
            while i < targets.len()
                invariant
                    i <= targets.len(),
                    checkpoint@ == CheckpointModel::RepairStrip(targets@),
                    forall|j: int| 0 <= j < i ==> (#[trigger] targets@[j]).destination != *segment,
                decreases targets.len() - i,
            {
                if targets[i].destination == *segment {
                    assert(targets@[i as int].destination == *segment);
                    return true;
                }
                i = i + 1;
            }
            false
        },
        TaskCheckpoint::RepairPlacement(target) => match target {
            Some(target) => target.destination == *segment,
            None => false,
        },
        TaskCheckpoint::RelocateSegment(payload) => payload.target == *segment,
        TaskCheckpoint::Other => false,
    }
}

/// A stored task of the chunk, with its checkpoint or the text of why that
/// cannot be read.
#[derive(Debug)]
pub struct OwnerTask {
    pub state: ChunkTaskState,
    pub checkpoint: Result<TaskCheckpoint, String>,
}

/// Model of a stored task.
pub struct OwnerTaskModel {
    pub state: ChunkTaskState,
    pub checkpoint: Result<CheckpointModel, Seq<char>>,
}

impl View for OwnerTask {
    type V = OwnerTaskModel;

    open spec fn view(&self) -> OwnerTaskModel {
        OwnerTaskModel {
            state: self.state,
            checkpoint: match self.checkpoint {
                Ok(checkpoint) => Ok(checkpoint@),
                Err(message) => Err(message@),
            },
        }
    }
}

/// Models of a run of tasks.
pub open spec fn owner_tasks(tasks: Seq<OwnerTask>) -> Seq<OwnerTaskModel> {
    Seq::new(tasks.len(), |i: int| tasks[i]@)
}

/// What the record of the chunk says of the segment; `None` where the tasks of
/// the chunk decide.
pub open spec fn record_owner(
    chunk_id: ChunkId,
    segment: Segment,
    chunk: Result<ChunkModel, LifecycleErrorModel>,
) -> Result<Option<SegmentOwnerDisposition>, OwnerErrorModel> {
    if segment.owner_chunk != Some(chunk_id) {
        Err(OwnerErrorModel::OwnerMismatch)
    } else {
        match chunk {
            Ok(chunk) => if all_segments(chunk.strips).contains(segment) {
                Ok(Some(SegmentOwnerDisposition::Referenced))
            } else {
                Ok(None)
            },
            Err(LifecycleErrorModel::ChunkNotFound) => Ok(Some(SegmentOwnerDisposition::Absent)),
            Err(error) => Err(OwnerErrorModel::Lifecycle(error)),
        }
    }
}

/// What the tasks from `from` on say of the segment.
pub open spec fn tasks_owner(segment: Segment, tasks: Seq<OwnerTaskModel>, from: int) -> Result<
    SegmentOwnerDisposition,
    OwnerErrorModel,
>
    decreases tasks.len() - from,
{
    if from < 0 || from >= tasks.len() {
        Ok(SegmentOwnerDisposition::Absent)
    } else if !tasks[from].state.spec_is_active() {
        tasks_owner(segment, tasks, from + 1)
    } else {
        match tasks[from].checkpoint {
            Err(message) => Err(OwnerErrorModel::Checkpoint(message)),
            Ok(checkpoint) => if checkpoint.owns(segment) {
                Ok(SegmentOwnerDisposition::TaskPending)
            } else {
                tasks_owner(segment, tasks, from + 1)
            },
        }
    }
}

/// Resolves owners: the record first, then the targets of active tasks.
#[derive(Debug, Clone, Copy, PartialEq, Eq, Structural)]
pub struct SegmentOwnerResolver {}

impl SegmentOwnerResolver {
    /// What the record of the chunk says of the segment; `None` where the tasks
    /// of the chunk decide.
    pub fn resolve_record(
        chunk_id: &ChunkId,
        segment: &Segment,
        chunk: Result<Chunk, LifecycleError>,
    ) -> (r: Result<Option<SegmentOwnerDisposition>, SegmentOwnerError>)
        ensures
            (match r {
                Ok(disposition) => Ok::<Option<SegmentOwnerDisposition>, OwnerErrorModel>(
                    disposition,
                ),
                Err(error) => Err(error@),
            }) == record_owner(*chunk_id, *segment, chunk_result(chunk)),
    {
        if segment.owner_chunk != Some(*chunk_id) {
            return Err(SegmentOwnerError::OwnerMismatch);
        }
        match chunk {
            Ok(chunk) => {
                if contains_segment(&extract_all_segments(&chunk.strips), segment) {
                    Ok(Some(SegmentOwnerDisposition::Referenced))
                } else {
                    Ok(None)
                }
            },
            Err(LifecycleError::ChunkNotFound) => Ok(Some(SegmentOwnerDisposition::Absent)),
            Err(error) => Err(SegmentOwnerError::Lifecycle(error)),
        }
    }

    /// What the tasks of the chunk say of a segment that its record lacks.
    pub fn resolve_tasks(segment: &Segment, tasks: &[OwnerTask]) -> (r: Result<
        SegmentOwnerDisposition,
        SegmentOwnerError,
    >)
        ensures
            (match r {
                Ok(disposition) => Ok::<SegmentOwnerDisposition, OwnerErrorModel>(disposition),
                Err(error) => Err(error@),
            }) == tasks_owner(*segment, owner_tasks(tasks@), 0),
    {
        let ghost models = owner_tasks(tasks@);
        let mut i: usize = 0;
        while i < tasks.len()
            invariant
                i <= tasks.len(),
                models == owner_tasks(tasks@),
                tasks_owner(*segment, models, 0) == tasks_owner(*segment, models, i as int),
            decreases tasks.len() - i,
        {
            assert(models[i as int] == tasks@[i as int]@);
            if tasks[i].state.is_active() {
                match &tasks[i].checkpoint {
                    Ok(checkpoint) => {
                        if task_owns_segment(checkpoint, segment) {
                            return Ok(SegmentOwnerDisposition::TaskPending);
                        }
                    },
                    Err(message) => {
                        return Err(SegmentOwnerError::Checkpoint(text(message.as_str())));
                    },
                }
            }
            i = i + 1;
        }
        Ok(SegmentOwnerDisposition::Absent)
    }
}

/// A segment that the record of its chunk holds, or that an active task is about
/// to publish, is never called absent.
pub proof fn law_owned_segment_is_never_absent(
    chunk_id: ChunkId,
    segment: Segment,
    chunk: ChunkModel,
    tasks: Seq<OwnerTaskModel>,
    owner: int,
)
    requires
        segment.owner_chunk == Some(chunk_id),
        all_segments(chunk.strips).contains(segment) || (0 <= owner < tasks.len()
            && tasks[owner].state.spec_is_active() && (tasks[owner].checkpoint matches Ok(checkpoint)
            && checkpoint.owns(segment))),
    ensures
        record_owner(chunk_id, segment, Ok(chunk)) == Ok::<
            Option<SegmentOwnerDisposition>,
            OwnerErrorModel,
        >(Some(SegmentOwnerDisposition::Referenced)) || tasks_owner(segment, tasks, 0) != Ok::<
            SegmentOwnerDisposition,
            OwnerErrorModel,
        >(SegmentOwnerDisposition::Absent),
{
    if !all_segments(chunk.strips).contains(segment) {
        lemma_owner_found(segment, tasks, owner, 0);
    }
}

proof fn lemma_owner_found(segment: Segment, tasks: Seq<OwnerTaskModel>, owner: int, from: int)
    requires
        0 <= from <= owner < tasks.len(),
        tasks[owner].state.spec_is_active(),
        tasks[owner].checkpoint matches Ok(checkpoint) && checkpoint.owns(segment),
    ensures
        tasks_owner(segment, tasks, from) != Ok::<SegmentOwnerDisposition, OwnerErrorModel>(
            SegmentOwnerDisposition::Absent,
        ),
    decreases owner - from,
{
    if from < owner {
        lemma_owner_found(segment, tasks, owner, from + 1);
    }
}

} // verus!
