//! Persistent chunk tasks: values, transitions, scans and execution.
use vstd::prelude::*;
use crate::text::text;
use crate::types::{copy_bytes, ChunkId};

pub mod effects;
pub mod executor;
pub mod manager;
pub mod owner;
pub mod relocation;
pub mod scanner;
pub mod store;

verus! {

/// State of a task.
#[derive(Debug, Clone, Copy, PartialEq, Eq, Structural)]
pub enum ChunkTaskState {
    Pending,
    Running,
    RetryWait,
    Completed,
    Failed,
    Cancelled,
}

/// What a task does.
#[derive(Debug, Clone, Copy, PartialEq, Eq, Structural)]
pub enum TaskKind {
    MirrorToEc,
    RepairStrip,
    RepairPlacement,
    RelocateSegment,
    Other(u16),
}

/// Schema of the task record and version of its payload.
#[derive(Debug, Clone, Copy, PartialEq, Eq, Structural)]
pub struct TaskVersions {
    pub schema: u16,
    pub payload: u16,
}

/// A durable task.
#[derive(Debug)]
pub struct ChunkTaskValue {
    pub schema_version: u16,
    pub task_id: ChunkId,
    pub partition_id: ChunkId,
    pub kind: TaskKind,
    pub kind_version: u16,
    pub state: ChunkTaskState,
    pub priority: u8,
    pub revision: u64,
    pub operation_id: ChunkId,
    pub source_revision: u64,
    pub created_at_ms: u64,
    pub updated_at_ms: u64,
    pub eligible_at_ms: u64,
    pub attempt: u32,
    pub max_attempts: u32,
    pub estimated_queue_bytes: u64,
    pub claim_owner: u64,
    pub claim_generation: u64,
    pub claim_deadline_ms: u64,
    pub last_error_code: u16,
    pub last_error: String,
    pub payload: Vec<u8>,
}

/// Model of a task.
pub struct TaskModel {
    pub schema_version: u16,
    pub task_id: ChunkId,
    pub partition_id: ChunkId,
    pub kind: TaskKind,
    pub kind_version: u16,
    pub state: ChunkTaskState,
    pub priority: u8,
    pub revision: u64,
    pub operation_id: ChunkId,
    pub source_revision: u64,
    pub created_at_ms: u64,
    pub updated_at_ms: u64,
    pub eligible_at_ms: u64,
    pub attempt: u32,
    pub max_attempts: u32,
    pub estimated_queue_bytes: u64,
    pub claim_owner: u64,
    pub claim_generation: u64,
    pub claim_deadline_ms: u64,
    pub last_error_code: u16,
    pub last_error: Seq<char>,
    pub payload: Seq<u8>,
}

impl View for ChunkTaskValue {
    type V = TaskModel;

    open spec fn view(&self) -> TaskModel {
        TaskModel {
            schema_version: self.schema_version,
            task_id: self.task_id,
            partition_id: self.partition_id,
            kind: self.kind,
            kind_version: self.kind_version,
            state: self.state,
            priority: self.priority,
            revision: self.revision,
            operation_id: self.operation_id,
            source_revision: self.source_revision,
            created_at_ms: self.created_at_ms,
            updated_at_ms: self.updated_at_ms,
            eligible_at_ms: self.eligible_at_ms,
            attempt: self.attempt,
            max_attempts: self.max_attempts,
            estimated_queue_bytes: self.estimated_queue_bytes,
            claim_owner: self.claim_owner,
            claim_generation: self.claim_generation,
            claim_deadline_ms: self.claim_deadline_ms,
            last_error_code: self.last_error_code,
            last_error: self.last_error@,
            payload: self.payload@,
        }
    }
}

impl Clone for ChunkTaskValue {
    fn clone(&self) -> (r: Self)
        ensures
            r@ == self@,
    {
        ChunkTaskValue {
            schema_version: self.schema_version,
            task_id: self.task_id,
            partition_id: self.partition_id,
            kind: self.kind,
            kind_version: self.kind_version,
            state: self.state,
            priority: self.priority,
            revision: self.revision,
            operation_id: self.operation_id,
            source_revision: self.source_revision,
            created_at_ms: self.created_at_ms,
            updated_at_ms: self.updated_at_ms,
            eligible_at_ms: self.eligible_at_ms,
            attempt: self.attempt,
            max_attempts: self.max_attempts,
            estimated_queue_bytes: self.estimated_queue_bytes,
            claim_owner: self.claim_owner,
            claim_generation: self.claim_generation,
            claim_deadline_ms: self.claim_deadline_ms,
            last_error_code: self.last_error_code,
            last_error: text(self.last_error.as_str()),
            payload: copy_bytes(&self.payload),
        }
    }
}

fn bytes_equal(a: &Vec<u8>, b: &Vec<u8>) -> (r: bool)
    ensures
        r == (a@ == b@),
{
    if a.len() != b.len() {
        return false;
    }
    let mut i: usize = 0;
    while i < a.len()
        invariant
            i <= a.len(),
            a@.len() == b@.len(),
            forall|j: int| 0 <= j < i ==> a@[j] == b@[j],
        decreases a.len() - i,
    {
        if a[i] != b[i] {
            assert(a@[i as int] != b@[i as int]);
            return false;
        }
        i = i + 1;
    }
    assert(a@ =~= b@);
    true
}

impl ChunkTaskValue {
    /// Whether both are the same task record.
    pub fn same(&self, other: &ChunkTaskValue) -> (r: bool)
        ensures
            r == (self@ == other@),
    {
        self.schema_version == other.schema_version && self.task_id == other.task_id
            && self.partition_id == other.partition_id && self.kind == other.kind
            && self.kind_version == other.kind_version && self.state == other.state && self.priority
            == other.priority && self.revision == other.revision && self.operation_id
            == other.operation_id && self.source_revision == other.source_revision
            && self.created_at_ms == other.created_at_ms && self.updated_at_ms
            == other.updated_at_ms && self.eligible_at_ms == other.eligible_at_ms && self.attempt
            == other.attempt && self.max_attempts == other.max_attempts
            && self.estimated_queue_bytes == other.estimated_queue_bytes && self.claim_owner
            == other.claim_owner && self.claim_generation == other.claim_generation
            && self.claim_deadline_ms == other.claim_deadline_ms && self.last_error_code
            == other.last_error_code && self.last_error == other.last_error
            && bytes_equal(&self.payload, &other.payload)
    }
}

/// Key of a task record.
#[derive(Debug, Clone, Copy, PartialEq, Eq, Structural)]
pub struct ChunkTaskKey {
    pub partition_id: ChunkId,
    pub kind: TaskKind,
    pub task_id: ChunkId,
}

/// Index of a runnable task; higher priorities and earlier tasks come first.
#[derive(Debug, Clone, Copy, PartialEq, Eq, Structural)]
pub struct ReadyChunkTaskKey {
    pub priority_inverse: u8,
    pub eligible_at_ms: u64,
    pub partition_id: ChunkId,
    pub kind: TaskKind,
    pub task_id: ChunkId,
}

/// Index of a claimed task.
#[derive(Debug, Clone, Copy, PartialEq, Eq, Structural)]
pub struct LeasedChunkTaskKey {
    pub lease_deadline_ms: u64,
    pub partition_id: ChunkId,
    pub kind: TaskKind,
    pub task_id: ChunkId,
}

impl TaskModel {
    /// Key of the task's record.
    pub open spec fn key(self) -> ChunkTaskKey {
        ChunkTaskKey {
            partition_id: self.partition_id,
            kind: self.kind,
            task_id: self.task_id,
        }
    }
}

impl ChunkTaskState {
    /// The task still has work to do.
    pub open spec fn spec_is_active(self) -> bool {
        self == ChunkTaskState::Pending || self == ChunkTaskState::Running || self
            == ChunkTaskState::RetryWait
    }

    /// Whether the task still has work to do.
    pub fn is_active(self) -> (r: bool)
        ensures
            r == self.spec_is_active(),
    {
        match self {
            ChunkTaskState::Pending | ChunkTaskState::Running | ChunkTaskState::RetryWait => true,
            _ => false,
        }
    }
}

} // verus!
