//! Transitions of durable tasks: claiming, completion and takeover.
use vstd::prelude::*;
use crate::arith::{clip_u32, clip_u64, max_u64, sat_add_u32, sat_add_u64};
use crate::task::store::{TaskStoreError, TaskStoreErrorModel};
use crate::task::{
    ChunkTaskState, ChunkTaskValue, LeasedChunkTaskKey, ReadyChunkTaskKey, TaskModel,
};
use crate::text::text;

verus! {

/// Task manager error.
#[derive(Debug)]
pub enum TaskManagerError {
    Store(TaskStoreError),
    StaleClaim,
}

/// Model of a task manager error.
pub enum TaskManagerErrorModel {
    Store(TaskStoreErrorModel),
    StaleClaim,
}

impl View for TaskManagerError {
    type V = TaskManagerErrorModel;

    open spec fn view(&self) -> TaskManagerErrorModel {
        match self {
            TaskManagerError::Store(e) => TaskManagerErrorModel::Store(e@),
            TaskManagerError::StaleClaim => TaskManagerErrorModel::StaleClaim,
        }
    }
}

impl TaskManagerErrorModel {
    /// Text of the error.
    pub open spec fn message(self) -> Seq<char> {
        match self {
            TaskManagerErrorModel::Store(e) => e.message(),
            TaskManagerErrorModel::StaleClaim => "task claim is stale"@,
        }
    }
}

impl TaskManagerError {
    /// Text of the error.
    pub fn message(&self) -> (r: String)
        ensures
            r@ == self@.message(),
    {
        match self {
            TaskManagerError::Store(e) => e.message(),
            TaskManagerError::StaleClaim => text("task claim is stale"),
        }
    }
}

/// What a new task met.
#[derive(Debug)]
pub enum TaskAdmission {
    Created(ChunkTaskValue),
    Existing(ChunkTaskValue),
}

/// A task that this instance runs.
#[derive(Debug)]
pub struct TaskClaim {
    pub task: ChunkTaskValue,
}

/// The task runs under this owner's claim of this generation.
pub open spec fn claim_owned(task: TaskModel, owner: u64, generation: u64) -> bool {
    task.state == ChunkTaskState::Running && task.claim_owner == owner && task.claim_generation
        == generation
}

/// Whether a task runs under an owner's claim.
pub fn owns_claim(task: &ChunkTaskValue, owner: u64, generation: u64) -> (r: bool)
    ensures
        r == claim_owned(task@, owner, generation),
{
    task.state == ChunkTaskState::Running && task.claim_owner == owner && task.claim_generation
        == generation
}

/// The task can be claimed through the index entry.
pub open spec fn claimable(task: TaskModel, index: ReadyChunkTaskKey, now_ms: u64) -> bool {
    &&& task.state == ChunkTaskState::Pending || task.state == ChunkTaskState::RetryWait
    &&& task.eligible_at_ms <= now_ms
    &&& task.priority == u8::MAX - index.priority_inverse
}

/// The task under a new claim.
pub open spec fn claimed(task: TaskModel, owner: u64, lease_ms: u64, now_ms: u64) -> TaskModel {
    TaskModel {
        state: ChunkTaskState::Running,
        revision: clip_u64(task.revision + 1),
        updated_at_ms: now_ms,
        attempt: clip_u32(task.attempt + 1),
        claim_owner: owner,
        claim_generation: clip_u64(task.claim_generation + 1),
        claim_deadline_ms: clip_u64(now_ms + lease_ms),
        ..task
    }
}

/// The task once its claim ends.
pub open spec fn finished(
    task: TaskModel,
    state: ChunkTaskState,
    now_ms: u64,
    error_code: u16,
    error: Seq<char>,
    eligible_at_ms: u64,
) -> TaskModel {
    TaskModel {
        state,
        revision: clip_u64(task.revision + 1),
        updated_at_ms: now_ms,
        eligible_at_ms,
        claim_owner: 0,
        claim_deadline_ms: 0,
        last_error_code: error_code,
        last_error: error,
        ..task
    }
}

/// The task runs under the claim that the index entry speaks of, and its lease
/// ran out.
pub open spec fn claim_expired(task: TaskModel, index: LeasedChunkTaskKey, now_ms: u64) -> bool {
    &&& task.state == ChunkTaskState::Running
    &&& task.claim_deadline_ms == index.lease_deadline_ms
    &&& task.claim_deadline_ms <= now_ms
}

/// The state of a task that is to be tried again: it fails once its attempts
/// are used up.
pub open spec fn retry_state(task: TaskModel) -> ChunkTaskState {
    if task.attempt >= task.max_attempts {
        ChunkTaskState::Failed
    } else {
        ChunkTaskState::RetryWait
    }
}

/// Model of a stored task that may be missing.
pub open spec fn stored_model(task: Option<&ChunkTaskValue>) -> Option<TaskModel> {
    match task {
        Some(t) => Some(t@),
        None => None,
    }
}

/// Model of a transition's result.
pub open spec fn transition_result(r: Result<ChunkTaskValue, TaskManagerError>) -> Result<
    TaskModel,
    TaskManagerErrorModel,
> {
    match r {
        Ok(task) => Ok(task@),
        Err(error) => Err(error@),
    }
}

/// The task after its claim ended, where the claim still holds.
pub open spec fn finish_of(
    stored: Option<TaskModel>,
    owner: u64,
    generation: u64,
    state: ChunkTaskState,
    now_ms: u64,
    error_code: u16,
    error: Seq<char>,
    eligible_at_ms: u64,
) -> Result<TaskModel, TaskManagerErrorModel> {
    match stored {
        Some(task) => if claim_owned(task, owner, generation) {
            Ok(finished(task, state, now_ms, error_code, error, eligible_at_ms))
        } else {
            Err(TaskManagerErrorModel::StaleClaim)
        },
        None => Err(TaskManagerErrorModel::StaleClaim),
    }
}

/// Transitions of the tasks that one instance runs.
#[derive(Debug, Clone, Copy, PartialEq, Eq, Structural)]
pub struct TaskManager {
    pub instance_id: u64,
    pub lease_ms: u64,
}

impl TaskManager {
    /// A manager for an instance; a lease lasts at least a millisecond.
    pub fn new(instance_id: u64, lease_ms: u64) -> (r: Self)
        ensures
            r.instance_id == instance_id,
            r.lease_ms == (if lease_ms == 0 {
                1
            } else {
                lease_ms
            }),
    {
        TaskManager { instance_id, lease_ms: max_u64(lease_ms, 1) }
    }

    /// What writing a new task came to, given what is stored behind the write.
    pub fn admission(task: &ChunkTaskValue, stored: Option<ChunkTaskValue>) -> (r: Result<
        TaskAdmission,
        TaskManagerError,
    >)
        ensures
            match stored {
                None => r matches Err(e) && e@ == TaskManagerErrorModel::StaleClaim,
                Some(value) => if value@ == task@ {
                    r matches Ok(TaskAdmission::Created(found)) && found@ == value@
                } else {
                    r matches Ok(TaskAdmission::Existing(found)) && found@ == value@
                },
            },
    {
        match stored {
            None => Err(TaskManagerError::StaleClaim),
            Some(value) => {
                if value.same(task) {
                    Ok(TaskAdmission::Created(value))
                } else {
                    Ok(TaskAdmission::Existing(value))
                }
            },
        }
    }

    /// The task to write in order to claim it; none where the index entry is
    /// stale.
    pub fn claim(
        &self,
        index: &ReadyChunkTaskKey,
        current: Option<&ChunkTaskValue>,
        now_ms: u64,
    ) -> (r: Option<ChunkTaskValue>)
        ensures
            match r {
                Some(next) => stored_model(current) matches Some(task) && claimable(
                    task,
                    *index,
                    now_ms,
                ) && next@ == claimed(task, self.instance_id, self.lease_ms, now_ms),
                None => !(stored_model(current) matches Some(task) && claimable(
                    task,
                    *index,
                    now_ms,
                )),
            },
    {
        match current {
            None => None,
            Some(task) => {
                let waiting = match task.state {
                    ChunkTaskState::Pending | ChunkTaskState::RetryWait => true,
                    _ => false,
                };
                if !waiting || task.eligible_at_ms > now_ms || task.priority != u8::MAX
                    - index.priority_inverse {
                    return None;
                }
                let mut next = task.clone();
                next.state = ChunkTaskState::Running;
                next.revision = sat_add_u64(next.revision, 1);
                next.updated_at_ms = now_ms;
                next.attempt = sat_add_u32(next.attempt, 1);
                next.claim_owner = self.instance_id;
                next.claim_generation = sat_add_u64(next.claim_generation, 1);
                next.claim_deadline_ms = sat_add_u64(now_ms, self.lease_ms);
                Some(next)
            },
        }
    }

    /// The claim, where the stored task shows that this instance won it.
    pub fn confirm_claim(&self, stored: Option<ChunkTaskValue>, claim_generation: u64) -> (r: Option<
        TaskClaim,
    >)
        ensures
            match stored {
                Some(task) => if claim_owned(task@, self.instance_id, claim_generation) {
                    r matches Some(claim) && claim.task@ == task@
                } else {
                    r is None
                },
                None => r is None,
            },
    {
        match stored {
            Some(task) => {
                if owns_claim(&task, self.instance_id, claim_generation) {
                    Some(TaskClaim { task })
                } else {
                    None
                }
            },
            None => None,
        }
    }

    /// The task to write in order to complete a claim.
    pub fn complete(&self, claim: &TaskClaim, current: Option<&ChunkTaskValue>, now_ms: u64) -> (r:
        Result<ChunkTaskValue, TaskManagerError>)
        ensures
            transition_result(r) == finish_of(
                stored_model(current),
                self.instance_id,
                claim.task@.claim_generation,
                ChunkTaskState::Completed,
                now_ms,
                0,
                ""@,
                0,
            ),
    {
        self.finish_claim(claim, current, now_ms, ChunkTaskState::Completed, 0, "", 0)
    }

    /// The task to write in order to try a claim again, or to fail it where its
    /// attempts are used up.
    pub fn retry(
        &self,
        claim: &TaskClaim,
        current: Option<&ChunkTaskValue>,
        now_ms: u64,
        eligible_at_ms: u64,
        error_code: u16,
        error: &str,
    ) -> (r: Result<ChunkTaskValue, TaskManagerError>)
        ensures
            transition_result(r) == finish_of(
                stored_model(current),
                self.instance_id,
                claim.task@.claim_generation,
                retry_state(claim.task@),
                now_ms,
                error_code,
                error@,
                eligible_at_ms,
            ),
    {
        let state = if claim.task.attempt >= claim.task.max_attempts {
            ChunkTaskState::Failed
        } else {
            ChunkTaskState::RetryWait
        };
        self.finish_claim(claim, current, now_ms, state, error_code, error, eligible_at_ms)
    }

    /// The task to write in order to fail a claim for good.
    pub fn fail(
        &self,
        claim: &TaskClaim,
        current: Option<&ChunkTaskValue>,
        now_ms: u64,
        error_code: u16,
        error: &str,
    ) -> (r: Result<ChunkTaskValue, TaskManagerError>)
        ensures
            transition_result(r) == finish_of(
                stored_model(current),
                self.instance_id,
                claim.task@.claim_generation,
                ChunkTaskState::Failed,
                now_ms,
                error_code,
                error@,
                0,
            ),
    {
        self.finish_claim(claim, current, now_ms, ChunkTaskState::Failed, error_code, error, 0)
    }

    /// The task to write in order to requeue it once its lease ran out; none
    /// where the index entry is stale.
    pub fn recover_expired(
        index: &LeasedChunkTaskKey,
        current: Option<&ChunkTaskValue>,
        now_ms: u64,
    ) -> (r: Option<ChunkTaskValue>)
        ensures
            match r {
                Some(next) => stored_model(current) matches Some(task) && claim_expired(
                    task,
                    *index,
                    now_ms,
                ) && next@ == finished(
                    task,
                    ChunkTaskState::RetryWait,
                    now_ms,
                    1,
                    "executor claim expired"@,
                    now_ms,
                ),
                None => !(stored_model(current) matches Some(task) && claim_expired(
                    task,
                    *index,
                    now_ms,
                )),
            },
    {
        match current {
            None => None,
            Some(task) => {
                if task.state != ChunkTaskState::Running || task.claim_deadline_ms
                    != index.lease_deadline_ms || task.claim_deadline_ms > now_ms {
                    return None;
                }
                let mut next = task.clone();
                next.state = ChunkTaskState::RetryWait;
                next.revision = sat_add_u64(next.revision, 1);
                next.updated_at_ms = now_ms;
                next.eligible_at_ms = now_ms;
                next.claim_owner = 0;
                next.claim_deadline_ms = 0;
                next.last_error_code = 1;
                next.last_error = text("executor claim expired");
                Some(next)
            },
        }
    }

    fn finish_claim(
        &self,
        claim: &TaskClaim,
        current: Option<&ChunkTaskValue>,
        now_ms: u64,
        state: ChunkTaskState,
        error_code: u16,
        error: &str,
        eligible_at_ms: u64,
    ) -> (r: Result<ChunkTaskValue, TaskManagerError>)
        ensures
            transition_result(r) == finish_of(
                stored_model(current),
                self.instance_id,
                claim.task@.claim_generation,
                state,
                now_ms,
                error_code,
                error@,
                eligible_at_ms,
            ),
    {
        let task = match current {
            Some(task) => task,
            None => {
                return Err(TaskManagerError::StaleClaim);
            },
        };
        if !owns_claim(task, self.instance_id, claim.task.claim_generation) {
            return Err(TaskManagerError::StaleClaim);
        }
        let mut next = task.clone();
        next.state = state;
        next.revision = sat_add_u64(next.revision, 1);
        next.updated_at_ms = now_ms;
        next.eligible_at_ms = eligible_at_ms;
        next.claim_owner = 0;
        next.claim_deadline_ms = 0;
        next.last_error_code = error_code;
        next.last_error = text(error);
        Ok(next)
    }
}

/// A claim is exclusive: once a task is claimed anew, nobody can finish it under
/// an earlier claim.
pub proof fn law_new_claim_fences_old(
    task: TaskModel,
    new_owner: u64,
    lease_ms: u64,
    now_ms: u64,
    old_owner: u64,
    old_generation: u64,
    state: ChunkTaskState,
    error_code: u16,
    error: Seq<char>,
    eligible_at_ms: u64,
)
    requires
        old_generation <= task.claim_generation,
        task.claim_generation < u64::MAX,
    ensures
        finish_of(
            Some(claimed(task, new_owner, lease_ms, now_ms)),
            old_owner,
            old_generation,
            state,
            now_ms,
            error_code,
            error,
            eligible_at_ms,
        ) == Err::<TaskModel, TaskManagerErrorModel>(TaskManagerErrorModel::StaleClaim),
{
}

/// A claim ends once: a task that was finished, requeued or failed cannot be
/// finished again under the same claim.
pub proof fn law_claim_ends_once(
    task: TaskModel,
    owner: u64,
    generation: u64,
    state: ChunkTaskState,
    now_ms: u64,
    error_code: u16,
    error: Seq<char>,
    eligible_at_ms: u64,
    again: ChunkTaskState,
)
    requires
        state != ChunkTaskState::Running,
    ensures
        finish_of(
            Some(finished(task, state, now_ms, error_code, error, eligible_at_ms)),
            owner,
            generation,
            again,
            now_ms,
            error_code,
            error,
            eligible_at_ms,
        ) == Err::<TaskModel, TaskManagerErrorModel>(TaskManagerErrorModel::StaleClaim),
{
}

/// Every transition keeps what a task is: its identity, its kind, its operation
/// and its payload; and it moves the revision on.
pub proof fn law_transitions_keep_identity(
    task: TaskModel,
    owner: u64,
    lease_ms: u64,
    now_ms: u64,
    state: ChunkTaskState,
    error_code: u16,
    error: Seq<char>,
    eligible_at_ms: u64,
)
    requires
        task.revision < u64::MAX,
    ensures
        claimed(task, owner, lease_ms, now_ms).key() == task.key(),
        claimed(task, owner, lease_ms, now_ms).payload == task.payload,
        claimed(task, owner, lease_ms, now_ms).operation_id == task.operation_id,
        claimed(task, owner, lease_ms, now_ms).revision == task.revision + 1,
        finished(task, state, now_ms, error_code, error, eligible_at_ms).key() == task.key(),
        finished(task, state, now_ms, error_code, error, eligible_at_ms).payload == task.payload,
        finished(task, state, now_ms, error_code, error, eligible_at_ms).operation_id
            == task.operation_id,
        finished(task, state, now_ms, error_code, error, eligible_at_ms).revision == task.revision
            + 1,
{
}

} // verus!
