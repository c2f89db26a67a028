//! Stored tasks: records and the indexes of runnable and claimed ones.
use vstd::prelude::*;
use crate::order::{lemma_stable_sorted, sort_stable, stable_sorted, SortKey};
use crate::routing::RouteError;
use crate::task::{
    ChunkTaskKey, ChunkTaskState, ChunkTaskValue, LeasedChunkTaskKey, ReadyChunkTaskKey, TaskKind,
    TaskModel,
};
use crate::text::text;
use crate::types::ChunkId;

verus! {

/// Task storage error.
#[derive(Debug)]
pub enum TaskStoreError {
    Route(RouteError),
    Kv(String),
    Value(String),
    IdentityChanged,
    KeyMismatch,
}

/// Model of a task storage error.
pub enum TaskStoreErrorModel {
    Route(RouteError),
    Kv(Seq<char>),
    Value(Seq<char>),
    IdentityChanged,
    KeyMismatch,
}

impl View for TaskStoreError {
    type V = TaskStoreErrorModel;

    open spec fn view(&self) -> TaskStoreErrorModel {
        match self {
            TaskStoreError::Route(e) => TaskStoreErrorModel::Route(*e),
            TaskStoreError::Kv(m) => TaskStoreErrorModel::Kv(m@),
            TaskStoreError::Value(m) => TaskStoreErrorModel::Value(m@),
            TaskStoreError::IdentityChanged => TaskStoreErrorModel::IdentityChanged,
            TaskStoreError::KeyMismatch => TaskStoreErrorModel::KeyMismatch,
        }
    }
}

impl TaskStoreErrorModel {
    /// Text of the error.
    pub open spec fn message(self) -> Seq<char> {
        match self {
            TaskStoreErrorModel::Route(e) => "task routing error: "@ + e.spec_message(),
            TaskStoreErrorModel::Kv(m) => "task KV operation failed: "@ + m,
            TaskStoreErrorModel::Value(m) => "task value is invalid: "@ + m,
            TaskStoreErrorModel::IdentityChanged => "task transition changes immutable identity"@,
            TaskStoreErrorModel::KeyMismatch => "task value does not match its canonical key"@,
        }
    }
}

impl TaskStoreError {
    /// Text of the error.
    pub fn message(&self) -> (r: String)
        ensures
            r@ == self@.message(),
    {
        match self {
            TaskStoreError::Route(e) => {
                let mut out = text("task routing error: ");
                let tail = e.message();
                out.append(tail.as_str());
                out
            },
            TaskStoreError::Kv(m) => {
                let mut out = text("task KV operation failed: ");
                out.append(m.as_str());
                out
            },
            TaskStoreError::Value(m) => {
                let mut out = text("task value is invalid: ");
                out.append(m.as_str());
                out
            },
            TaskStoreError::IdentityChanged => text("task transition changes immutable identity"),
            TaskStoreError::KeyMismatch => text("task value does not match its canonical key"),
        }
    }
}

/// Index of a task.
#[derive(Debug, Clone, Copy, PartialEq, Eq, Structural)]
pub enum TaskIndex {
    Ready(ReadyChunkTaskKey),
    Leased(LeasedChunkTaskKey),
}

/// The index under which a task is found; none once it is over.
pub open spec fn index_of(task: TaskModel) -> Option<TaskIndex> {
    match task.state {
        ChunkTaskState::Pending | ChunkTaskState::RetryWait => Some(
            TaskIndex::Ready(
                ReadyChunkTaskKey {
                    priority_inverse: (u8::MAX - task.priority) as u8,
                    eligible_at_ms: task.eligible_at_ms,
                    partition_id: task.partition_id,
                    kind: task.kind,
                    task_id: task.task_id,
                },
            ),
        ),
        ChunkTaskState::Running => Some(
            TaskIndex::Leased(
                LeasedChunkTaskKey {
                    lease_deadline_ms: task.claim_deadline_ms,
                    partition_id: task.partition_id,
                    kind: task.kind,
                    task_id: task.task_id,
                },
            ),
        ),
        _ => None,
    }
}

/// The index under which a task is found.
pub fn index_key(task: &ChunkTaskValue) -> (r: Option<TaskIndex>)
    ensures
        r == index_of(task@),
{
    match task.state {
        ChunkTaskState::Pending | ChunkTaskState::RetryWait => Some(
            TaskIndex::Ready(
                ReadyChunkTaskKey {
                    priority_inverse: u8::MAX - task.priority,
                    eligible_at_ms: task.eligible_at_ms,
                    partition_id: task.partition_id,
                    kind: task.kind,
                    task_id: task.task_id,
                },
            ),
        ),
        ChunkTaskState::Running => Some(
            TaskIndex::Leased(
                LeasedChunkTaskKey {
                    lease_deadline_ms: task.claim_deadline_ms,
                    partition_id: task.partition_id,
                    kind: task.kind,
                    task_id: task.task_id,
                },
            ),
        ),
        _ => None,
    }
}

/// Key of a task's record.
pub fn canonical_key(task: &ChunkTaskValue) -> (r: ChunkTaskKey)
    ensures
        r == task@.key(),
{
    ChunkTaskKey { partition_id: task.partition_id, kind: task.kind, task_id: task.task_id }
}

/// One operation of a task transition.
#[derive(Debug, Clone, Copy, PartialEq, Eq, Structural)]
pub enum TaskOp {
    DeleteIndex(TaskIndex),
    /// Store the task's record.
    PutRecord(ChunkTaskKey),
    PutIndex(TaskIndex),
}

/// The operations that move a task on, in one batch.
pub open spec fn transition_of(previous: Option<TaskModel>, next: TaskModel) -> Result<
    Seq<TaskOp>,
    TaskStoreErrorModel,
> {
    if previous matches Some(old) && old.key() != next.key() {
        Err(TaskStoreErrorModel::IdentityChanged)
    } else {
        let removal = match previous {
            Some(old) => match index_of(old) {
                Some(index) => seq![TaskOp::DeleteIndex(index)],
                None => Seq::empty(),
            },
            None => Seq::empty(),
        };
        let entry = match index_of(next) {
            Some(index) => seq![TaskOp::PutIndex(index)],
            None => Seq::empty(),
        };
        Ok(removal.push(TaskOp::PutRecord(next.key())) + entry)
    }
}

/// The operations that move a task on.
pub fn write_transition(previous: Option<&ChunkTaskValue>, next: &ChunkTaskValue) -> (r: Result<
    Vec<TaskOp>,
    TaskStoreError,
>)
    ensures
        (match r {
            Ok(ops) => Ok(ops@),
            Err(error) => Err(error@),
        }) == transition_of(
            match previous {
                Some(old) => Some(old@),
                None => None,
            },
            next@,
        ),
{
    let mut ops: Vec<TaskOp> = Vec::new();
    match previous {
        Some(old) => {
            if canonical_key(old) != canonical_key(next) {
                return Err(TaskStoreError::IdentityChanged);
            }
            match index_key(old) {
                Some(index) => {
                    ops.push(TaskOp::DeleteIndex(index));
                    assert(ops@ =~= seq![TaskOp::DeleteIndex(index)]);
                },
                None => {},
            }
        },
        None => {},
    }
    ops.push(TaskOp::PutRecord(canonical_key(next)));
    match index_key(next) {
        Some(index) => {
            ops.push(TaskOp::PutIndex(index));
        },
        None => {},
    }
    proof {
        let want = transition_of(
            match previous {
                Some(old) => Some(old@),
                None => None,
            },
            next@,
        )->Ok_0;
        assert(ops@ =~= want);
    }
    Ok(ops)
}

/// The indexes after the operations, given those before.
pub open spec fn indexes_after(indexes: Set<TaskIndex>, ops: Seq<TaskOp>) -> Set<TaskIndex>
    decreases ops.len(),
{
    if ops.len() == 0 {
        indexes
    } else {
        let front = indexes_after(indexes, ops.drop_last());
        match ops.last() {
            TaskOp::DeleteIndex(index) => front.remove(index),
            TaskOp::PutIndex(index) => front.insert(index),
            TaskOp::PutRecord(_) => front,
        }
    }
}

/// The task that an index entry speaks of.
pub open spec fn indexed_task(index: TaskIndex) -> ChunkTaskKey {
    match index {
        TaskIndex::Ready(key) => ChunkTaskKey {
            partition_id: key.partition_id,
            kind: key.kind,
            task_id: key.task_id,
        },
        TaskIndex::Leased(key) => ChunkTaskKey {
            partition_id: key.partition_id,
            kind: key.kind,
            task_id: key.task_id,
        },
    }
}

/// The indexes hold exactly the entry that the task belongs under, and no other of it.
pub open spec fn indexed_as(indexes: Set<TaskIndex>, task: TaskModel) -> bool {
    forall|index: TaskIndex| #[trigger]
        indexes.contains(index) && indexed_task(index) == task.key() <==> index_of(task) == Some(
            index,
        )
}

/// A transition keeps the indexes in step: a task that was found under exactly
/// its entry before is so afterwards, and entries of other tasks stay.
pub proof fn law_transition_keeps_index(
    indexes: Set<TaskIndex>,
    previous: TaskModel,
    next: TaskModel,
)
    requires
        previous.key() == next.key(),
        indexed_as(indexes, previous),
    ensures
        transition_of(Some(previous), next) matches Ok(ops) && {
            let after = indexes_after(indexes, ops);
            &&& indexed_as(after, next)
            &&& forall|index: TaskIndex|
                indexed_task(index) != next.key() ==> (#[trigger] after.contains(index)
                    <==> indexes.contains(index))
        },
{
    let ops = transition_of(Some(previous), next)->Ok_0;
    let after = indexes_after(indexes, ops);
    let removed = match index_of(previous) {
        Some(index) => indexes.remove(index),
        None => indexes,
    };
    let want = match index_of(next) {
        Some(index) => removed.insert(index),
        None => removed,
    };
    assert(after =~= want) by {
        let first = match index_of(previous) {
            Some(index) => seq![TaskOp::DeleteIndex(index)],
            None => Seq::<TaskOp>::empty(),
        };
        let middle = first.push(TaskOp::PutRecord(next.key()));
        assert(middle.drop_last() =~= first);
        match index_of(previous) {
            Some(index) => {
                assert(first.drop_last() =~= Seq::<TaskOp>::empty());
                assert(indexes_after(indexes, first.drop_last()) == indexes);
                assert(indexes_after(indexes, first) == removed);
            },
            None => {
                assert(first.len() == 0);
                assert(indexes_after(indexes, first) == indexes);
            },
        }
        assert(indexes_after(indexes, first) == removed);
        assert(middle.last() == TaskOp::PutRecord(next.key()));
        assert(indexes_after(indexes, middle) == removed);
        match index_of(next) {
            Some(index) => {
                assert(ops.drop_last() =~= middle);
                assert(ops.last() == TaskOp::PutIndex(index));
            },
            None => {
                assert(ops =~= middle);
            },
        }
    }
    assert forall|index: TaskIndex| #[trigger]
        after.contains(index) && indexed_task(index) == next.key() <==> index_of(next) == Some(
            index,
        ) by {
        assert(indexes.contains(index) && indexed_task(index) == previous.key() <==> index_of(
            previous,
        ) == Some(index));
    }
    assert forall|index: TaskIndex|
        indexed_task(index) != next.key() implies (#[trigger] after.contains(index)
        <==> indexes.contains(index)) by {
        assert(index_of(previous) != Some(index));
    }
}

/// Refuses a stored value that is not the task of its key.
pub fn check_key(key: &ChunkTaskKey, value: &ChunkTaskValue) -> (r: Result<(), TaskStoreError>)
    ensures
        match r {
            Ok(()) => value@.key() == *key,
            Err(error) => value@.key() != *key && error@ == TaskStoreErrorModel::KeyMismatch,
        },
{
    if value.partition_id != key.partition_id || value.kind != key.kind || value.task_id
        != key.task_id {
        return Err(TaskStoreError::KeyMismatch);
    }
    Ok(())
}

// ---------------------------------------------------------------------------
// Scans.
// ---------------------------------------------------------------------------

/// Position of a kind in the order of keys.
pub open spec fn kind_rank(kind: TaskKind) -> (int, int) {
    match kind {
        TaskKind::MirrorToEc => (0, 0),
        TaskKind::RepairStrip => (1, 0),
        TaskKind::RepairPlacement => (2, 0),
        TaskKind::RelocateSegment => (3, 0),
        TaskKind::Other(code) => (4, code as int),
    }
}

/// The first ID comes before the second.
pub open spec fn id_before(a: ChunkId, b: ChunkId) -> bool {
    a.high < b.high || (a.high == b.high && a.low < b.low)
}

/// The first kind comes before the second.
pub open spec fn kind_before(a: TaskKind, b: TaskKind) -> bool {
    kind_rank(a).0 < kind_rank(b).0 || (kind_rank(a).0 == kind_rank(b).0 && kind_rank(a).1
        < kind_rank(b).1)
}

/// The first task comes before the second, field by field.
pub open spec fn task_before(a: ChunkTaskKey, b: ChunkTaskKey) -> bool {
    id_before(a.partition_id, b.partition_id) || (a.partition_id == b.partition_id && (kind_before(
        a.kind,
        b.kind,
    ) || (a.kind == b.kind && id_before(a.task_id, b.task_id))))
}

/// The first index comes before the second, field by field.
pub open spec fn ready_before(a: ReadyChunkTaskKey, b: ReadyChunkTaskKey) -> bool {
    a.priority_inverse < b.priority_inverse || (a.priority_inverse == b.priority_inverse && (
    a.eligible_at_ms < b.eligible_at_ms || (a.eligible_at_ms == b.eligible_at_ms && task_before(
        indexed_task(TaskIndex::Ready(a)),
        indexed_task(TaskIndex::Ready(b)),
    ))))
}

/// The first index comes before the second, field by field.
pub open spec fn leased_before(a: LeasedChunkTaskKey, b: LeasedChunkTaskKey) -> bool {
    a.lease_deadline_ms < b.lease_deadline_ms || (a.lease_deadline_ms == b.lease_deadline_ms
        && task_before(indexed_task(TaskIndex::Leased(a)), indexed_task(TaskIndex::Leased(b))))
}

fn rank_of_kind(kind: TaskKind) -> (r: (u8, u16))
    ensures
        r.0 as int == kind_rank(kind).0,
        r.1 as int == kind_rank(kind).1,
{
    match kind {
        TaskKind::MirrorToEc => (0, 0),
        TaskKind::RepairStrip => (1, 0),
        TaskKind::RepairPlacement => (2, 0),
        TaskKind::RelocateSegment => (3, 0),
        TaskKind::Other(code) => (4, code),
    }
}

fn is_task_before(a: &ChunkTaskKey, b: &ChunkTaskKey) -> (r: bool)
    ensures
        r == task_before(*a, *b),
{
    if a.partition_id != b.partition_id {
        return a.partition_id.high < b.partition_id.high || (a.partition_id.high
            == b.partition_id.high && a.partition_id.low < b.partition_id.low);
    }
    if a.kind != b.kind {
        let ra = rank_of_kind(a.kind);
        let rb = rank_of_kind(b.kind);
        return ra.0 < rb.0 || (ra.0 == rb.0 && ra.1 < rb.1);
    }
    a.task_id.high < b.task_id.high || (a.task_id.high == b.task_id.high && a.task_id.low
        < b.task_id.low)
}

impl SortKey for ReadyChunkTaskKey {
    open spec fn not_above(a: ReadyChunkTaskKey, b: ReadyChunkTaskKey) -> bool {
        !ready_before(b, a)
    }

    proof fn total(a: ReadyChunkTaskKey, b: ReadyChunkTaskKey) {
    }

    proof fn transitive(a: ReadyChunkTaskKey, b: ReadyChunkTaskKey, c: ReadyChunkTaskKey) {
    }

    fn key_not_above(a: &ReadyChunkTaskKey, b: &ReadyChunkTaskKey) -> (r: bool) {
        if a.priority_inverse != b.priority_inverse {
            return a.priority_inverse < b.priority_inverse;
        }
        if a.eligible_at_ms != b.eligible_at_ms {
            return a.eligible_at_ms < b.eligible_at_ms;
        }
        !is_task_before(
            &ChunkTaskKey { partition_id: b.partition_id, kind: b.kind, task_id: b.task_id },
            &ChunkTaskKey { partition_id: a.partition_id, kind: a.kind, task_id: a.task_id },
        )
    }
}

impl SortKey for LeasedChunkTaskKey {
    open spec fn not_above(a: LeasedChunkTaskKey, b: LeasedChunkTaskKey) -> bool {
        !leased_before(b, a)
    }

    proof fn total(a: LeasedChunkTaskKey, b: LeasedChunkTaskKey) {
    }

    proof fn transitive(a: LeasedChunkTaskKey, b: LeasedChunkTaskKey, c: LeasedChunkTaskKey) {
    }

    fn key_not_above(a: &LeasedChunkTaskKey, b: &LeasedChunkTaskKey) -> (r: bool) {
        if a.lease_deadline_ms != b.lease_deadline_ms {
            return a.lease_deadline_ms < b.lease_deadline_ms;
        }
        !is_task_before(
            &ChunkTaskKey { partition_id: b.partition_id, kind: b.kind, task_id: b.task_id },
            &ChunkTaskKey { partition_id: a.partition_id, kind: a.kind, task_id: a.task_id },
        )
    }
}

/// The entries that are due, each once, by first appearance.
pub open spec fn due_ready(keys: Seq<ReadyChunkTaskKey>, now_ms: u64) -> Seq<ReadyChunkTaskKey>
    decreases keys.len(),
{
    if keys.len() == 0 {
        Seq::empty()
    } else {
        let front = due_ready(keys.drop_last(), now_ms);
        if keys.last().eligible_at_ms <= now_ms && !front.contains(keys.last()) {
            front.push(keys.last())
        } else {
            front
        }
    }
}

/// The leases that ran out, each once, by first appearance.
pub open spec fn due_leases(keys: Seq<LeasedChunkTaskKey>, now_ms: u64) -> Seq<LeasedChunkTaskKey>
    decreases keys.len(),
{
    if keys.len() == 0 {
        Seq::empty()
    } else {
        let front = due_leases(keys.drop_last(), now_ms);
        if keys.last().lease_deadline_ms <= now_ms && !front.contains(keys.last()) {
            front.push(keys.last())
        } else {
            front
        }
    }
}

proof fn lemma_due_ready_once(keys: Seq<ReadyChunkTaskKey>, now_ms: u64)
    ensures
        due_ready(keys, now_ms).no_duplicates(),
    decreases keys.len(),
{
    if keys.len() > 0 {
        lemma_due_ready_once(keys.drop_last(), now_ms);
    }
}

proof fn lemma_due_leases_once(keys: Seq<LeasedChunkTaskKey>, now_ms: u64)
    ensures
        due_leases(keys, now_ms).no_duplicates(),
    decreases keys.len(),
{
    if keys.len() > 0 {
        lemma_due_leases_once(keys.drop_last(), now_ms);
    }
}

proof fn lemma_sorted_once<T: SortKey>(items: Seq<T>)
    requires
        items.no_duplicates(),
    ensures
        stable_sorted(items).no_duplicates(),
{
    lemma_stable_sorted(items);
    items.lemma_multiset_has_no_duplicates();
    assert forall|x: T| #[trigger]
        stable_sorted(items).to_multiset().contains(x) implies stable_sorted(
        items,
    ).to_multiset().count(x) == 1 by {
        assert(items.to_multiset().contains(x));
    }
    stable_sorted(items).lemma_multiset_has_no_duplicates_conv();
}

/// The first `max` of a run.
pub open spec fn at_most<T>(items: Seq<T>, max: int) -> Seq<T> {
    if items.len() <= max {
        items
    } else {
        items.take(max)
    }
}

/// Runnable tasks whose time has come, in the order of their indexes.
pub fn scan_ready(keys: &[ReadyChunkTaskKey], now_ms: u64, max_keys: u32) -> (r: Vec<
    ReadyChunkTaskKey,
>)
    ensures
        r@ == at_most(stable_sorted(due_ready(keys@, now_ms)), max_keys as int),
        r@.no_duplicates(),
{
    let mut due: Vec<ReadyChunkTaskKey> = Vec::new();
    let mut i: usize = 0;
    while i < keys.len()
        invariant
            i <= keys.len(),
            due@ == due_ready(keys@.take(i as int), now_ms),
        decreases keys.len() - i,
    {
        proof {
            assert(keys@.take(i + 1).drop_last() =~= keys@.take(i as int));
            assert(keys@.take(i + 1).last() == keys@[i as int]);
        }
        if keys[i].eligible_at_ms <= now_ms {
            let mut known = false;
            let mut j: usize = 0;
            while j < due.len() && !known
                invariant
                    j <= due.len(),
                    i < keys@.len(),
                    known ==> due@.contains(keys@[i as int]),
                    !known ==> forall|k: int| 0 <= k < j ==> due@[k] != keys@[i as int],
                ensures
                    known == due@.contains(keys@[i as int]),
                decreases due.len() - j,
            {
                if due[j] == keys[i] {
                    assert(due@[j as int] == keys@[i as int]);
                    known = true;
                }
                j = j + 1;
            }
            if !known {
                due.push(keys[i]);
            }
        }
        i = i + 1;
    }
    proof {
        assert(keys@.take(i as int) =~= keys@);
        lemma_due_ready_once(keys@, now_ms);
        lemma_sorted_once(due@);
    }
    let mut sorted = sort_stable(due);
    let limit: usize = max_keys as usize;
    if sorted.len() > limit {
        sorted.truncate(limit);
    }
    sorted
}

/// Claims whose lease ran out, in the order of their indexes.
pub fn scan_expired_leases(keys: &[LeasedChunkTaskKey], now_ms: u64, max_keys: u32) -> (r: Vec<
    LeasedChunkTaskKey,
>)
    ensures
        r@ == at_most(stable_sorted(due_leases(keys@, now_ms)), max_keys as int),
        r@.no_duplicates(),
{
    let mut due: Vec<LeasedChunkTaskKey> = Vec::new();
    let mut i: usize = 0;
    while i < keys.len()
        invariant
            i <= keys.len(),
            due@ == due_leases(keys@.take(i as int), now_ms),
        decreases keys.len() - i,
    {
        proof {
            assert(keys@.take(i + 1).drop_last() =~= keys@.take(i as int));
            assert(keys@.take(i + 1).last() == keys@[i as int]);
        }
        if keys[i].lease_deadline_ms <= now_ms {
            let mut known = false;
            let mut j: usize = 0;
            while j < due.len() && !known
                invariant
                    j <= due.len(),
                    i < keys@.len(),
                    known ==> due@.contains(keys@[i as int]),
                    !known ==> forall|k: int| 0 <= k < j ==> due@[k] != keys@[i as int],
                ensures
                    known == due@.contains(keys@[i as int]),
                decreases due.len() - j,
            {
                if due[j] == keys[i] {
                    assert(due@[j as int] == keys@[i as int]);
                    known = true;
                }
                j = j + 1;
            }
            if !known {
                due.push(keys[i]);
            }
        }
        i = i + 1;
    }
    proof {
        assert(keys@.take(i as int) =~= keys@);
        lemma_due_leases_once(keys@, now_ms);
        lemma_sorted_once(due@);
    }
    let mut sorted = sort_stable(due);
    let limit: usize = max_keys as usize;
    if sorted.len() > limit {
        sorted.truncate(limit);
    }
    sorted
}

} // verus!
