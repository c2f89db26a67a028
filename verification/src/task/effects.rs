//! What the operations on tasks do, told on the fields of the tasks.
use vstd::prelude::*;
use crate::lifecycle::error::LifecycleErrorModel;
use crate::order::{lemma_stable_sorted, stable_sorted};
use crate::relocation::{handoff_payload, RelocateSegmentHandoffRequest};
use crate::task::{ChunkTaskState, LeasedChunkTaskKey, ReadyChunkTaskKey, TaskKind, TaskModel};
use crate::task::executor::{first_repeat, handler_for, Registration};
use crate::task::manager::{claim_expired, claimable, claimed, finish_of, retry_state};
use crate::task::owner::{
    record_owner, tasks_owner, CheckpointModel, OwnerErrorModel, OwnerTaskModel,
    SegmentOwnerDisposition,
};
use crate::task::relocation::{
    holder_of, loss_budget_of, relocation_step, weakens, with_segment,
    RelocateSegmentTaskDisposition, RelocateSegmentTaskPayload, RelocationModel,
};
use crate::task::scanner::count_true;
use crate::task::store::{
    at_most, due_leases, due_ready, index_of, leased_before, ready_before, transition_of, TaskIndex,
    TaskOp,
};
use crate::types::{ChunkId, ChunkModel, LayoutModel, PlacementAssessment, Segment, StripModel};

verus! {

/// A task is claimed exactly where it waits, its time has come and the entry still
/// tells its priority. It then runs for the owner under the next generation, for
/// the lease from now on, in one more attempt.
pub proof fn law_claims_take_waiting_tasks(
    task: TaskModel,
    index: ReadyChunkTaskKey,
    owner: u64,
    lease_ms: u64,
    now_ms: u64,
)
    ensures
        claimable(task, index, now_ms) <==> (task.state == ChunkTaskState::Pending || task.state
            == ChunkTaskState::RetryWait) && task.eligible_at_ms <= now_ms && task.priority
            + index.priority_inverse == 255,
        ({
            let next = claimed(task, owner, lease_ms, now_ms);
            &&& next.state == ChunkTaskState::Running
            &&& next.claim_owner == owner
            &&& task.claim_generation < u64::MAX ==> next.claim_generation == task.claim_generation
                + 1
            &&& now_ms + lease_ms <= u64::MAX ==> next.claim_deadline_ms == now_ms + lease_ms
            &&& now_ms + lease_ms > u64::MAX ==> next.claim_deadline_ms == u64::MAX
            &&& task.attempt < u32::MAX ==> next.attempt == task.attempt + 1
            &&& task.revision < u64::MAX ==> next.revision == task.revision + 1
            &&& next.updated_at_ms == now_ms
            &&& next == TaskModel {
                state: next.state,
                claim_owner: next.claim_owner,
                claim_generation: next.claim_generation,
                claim_deadline_ms: next.claim_deadline_ms,
                attempt: next.attempt,
                revision: next.revision,
                updated_at_ms: next.updated_at_ms,
                ..task
            }
        }),
{
}

/// A claim ends exactly where the task still runs for this owner under this
/// generation. The task is then unclaimed, in the state it ends in, to be run not
/// before the given time, with the error told, one revision on.
pub proof fn law_only_the_claim_ends_a_task(
    stored: Option<TaskModel>,
    owner: u64,
    generation: u64,
    state: ChunkTaskState,
    now_ms: u64,
    error_code: u16,
    error: Seq<char>,
    eligible_at_ms: u64,
)
    ensures
        finish_of(
            stored,
            owner,
            generation,
            state,
            now_ms,
            error_code,
            error,
            eligible_at_ms,
        ) is Ok <==> stored is Some && stored->0.state == ChunkTaskState::Running
            && stored->0.claim_owner == owner && stored->0.claim_generation == generation,
        finish_of(
            stored,
            owner,
            generation,
            state,
            now_ms,
            error_code,
            error,
            eligible_at_ms,
        ) matches Ok(next) ==> {
            let task = stored->0;
            &&& next.state == state
            &&& next.claim_owner == 0 && next.claim_deadline_ms == 0
            &&& next.eligible_at_ms == eligible_at_ms
            &&& next.last_error_code == error_code && next.last_error == error
            &&& next.updated_at_ms == now_ms
            &&& task.revision < u64::MAX ==> next.revision == task.revision + 1
            &&& next == TaskModel {
                state: next.state,
                claim_owner: next.claim_owner,
                claim_deadline_ms: next.claim_deadline_ms,
                eligible_at_ms: next.eligible_at_ms,
                last_error_code: next.last_error_code,
                last_error: next.last_error,
                updated_at_ms: next.updated_at_ms,
                revision: next.revision,
                ..task
            }
        },
{
}

/// A claim has expired exactly where the task still runs under the deadline that
/// the entry tells, and that deadline is over.
pub proof fn law_expired_claims_are_told_by_their_deadline(
    task: TaskModel,
    index: LeasedChunkTaskKey,
    now_ms: u64,
)
    ensures
        claim_expired(task, index, now_ms) <==> task.state == ChunkTaskState::Running
            && task.claim_deadline_ms == index.lease_deadline_ms && now_ms >= task.claim_deadline_ms,
        retry_state(task) == (if task.attempt < task.max_attempts {
            ChunkTaskState::RetryWait
        } else {
            ChunkTaskState::Failed
        }),
{
}

/// A waiting task is indexed by its priority and its time, a running one by its
/// deadline, and a task that ended not at all. A transition takes the old entry
/// away before it writes the record and the new entry, and never changes whose task
/// it is.
pub proof fn law_index_tells_what_is_next(previous: Option<TaskModel>, next: TaskModel)
    ensures
        (next.state == ChunkTaskState::Pending || next.state == ChunkTaskState::RetryWait) <==> (
        index_of(next) matches Some(TaskIndex::Ready(_))),
        next.state == ChunkTaskState::Running <==> (index_of(next) matches Some(
            TaskIndex::Leased(_),
        )),
        index_of(next) matches Some(TaskIndex::Ready(key)) ==> {
            &&& key.priority_inverse + next.priority == 255
            &&& key.eligible_at_ms == next.eligible_at_ms
            &&& key.partition_id == next.partition_id
            &&& key.kind == next.kind
            &&& key.task_id == next.task_id
        },
        index_of(next) matches Some(TaskIndex::Leased(key)) ==> {
            &&& key.lease_deadline_ms == next.claim_deadline_ms
            &&& key.partition_id == next.partition_id
            &&& key.kind == next.kind
            &&& key.task_id == next.task_id
        },
        transition_of(previous, next) is Err <==> previous is Some && (previous->0.partition_id
            != next.partition_id || previous->0.kind != next.kind || previous->0.task_id
            != next.task_id),
        transition_of(previous, next) matches Ok(ops) ==> {
            &&& ops.contains(TaskOp::PutRecord(next.key()))
            &&& forall|i: int|
                0 <= i < ops.len() ==> match #[trigger] ops[i] {
                    TaskOp::DeleteIndex(index) => i == 0 && previous is Some && index_of(previous->0)
                        == Some(index),
                    TaskOp::PutIndex(index) => i == ops.len() - 1 && index_of(next) == Some(index),
                    TaskOp::PutRecord(key) => key == next.key(),
                }
            &&& previous is Some && index_of(previous->0) is Some ==> ops[0] == TaskOp::DeleteIndex(
                index_of(previous->0)->0,
            )
            &&& index_of(next) is Some ==> ops.last() == TaskOp::PutIndex(index_of(next)->0)
        },
{
    if let Ok(ops) = transition_of(previous, next) {
        let k: int = if previous is Some && index_of(previous->0) is Some {
            1
        } else {
            0
        };
        assert(ops[k] == TaskOp::PutRecord(next.key()));
    }
}

/// Runnable entries come by priority, highest first, and then by the time from
/// which they may run; expired ones by their deadline.
pub proof fn law_urgent_tasks_come_first(a: ReadyChunkTaskKey, b: ReadyChunkTaskKey)
    ensures
        a.priority_inverse < b.priority_inverse ==> ready_before(a, b) && !ready_before(b, a),
        a.priority_inverse == b.priority_inverse && a.eligible_at_ms < b.eligible_at_ms
            ==> ready_before(a, b) && !ready_before(b, a),
        !ready_before(a, a),
        !ready_before(a, b) && !ready_before(b, a) ==> a == b,
        forall|x: LeasedChunkTaskKey, y: LeasedChunkTaskKey|
            x.lease_deadline_ms < y.lease_deadline_ms ==> #[trigger] leased_before(x, y)
                && !leased_before(y, x),
{
}

proof fn lemma_due_ready(keys: Seq<ReadyChunkTaskKey>, now_ms: u64, key: ReadyChunkTaskKey)
    ensures
        due_ready(keys, now_ms).contains(key) <==> keys.contains(key) && key.eligible_at_ms <= now_ms,
    decreases keys.len(),
{
    if keys.len() > 0 {
        let front = keys.drop_last();
        let before = due_ready(front, now_ms);
        let all = due_ready(keys, now_ms);
        lemma_due_ready(front, now_ms, key);
        lemma_due_ready(front, now_ms, keys.last());
        assert(keys[keys.len() - 1] == keys.last());
        if keys.contains(key) {
            let k = choose|k: int| 0 <= k < keys.len() && keys[k] == key;
            if k < front.len() {
                assert(front[k] == key);
            }
        }
        if front.contains(key) {
            let k = choose|k: int| 0 <= k < front.len() && front[k] == key;
            assert(keys[k] == key);
        }
        if all != before {
            assert(all[all.len() - 1] == keys.last());
            if before.contains(key) {
                let k = choose|k: int| 0 <= k < before.len() && before[k] == key;
                assert(all[k] == key);
            }
            if all.contains(key) && key != keys.last() {
                let k = choose|k: int| 0 <= k < all.len() && all[k] == key;
                assert(before[k] == key);
            }
        }
    }
}

proof fn lemma_due_leases(keys: Seq<LeasedChunkTaskKey>, now_ms: u64, key: LeasedChunkTaskKey)
    ensures
        due_leases(keys, now_ms).contains(key) <==> keys.contains(key) && key.lease_deadline_ms
            <= now_ms,
    decreases keys.len(),
{
    if keys.len() > 0 {
        let front = keys.drop_last();
        let before = due_leases(front, now_ms);
        let all = due_leases(keys, now_ms);
        lemma_due_leases(front, now_ms, key);
        lemma_due_leases(front, now_ms, keys.last());
        assert(keys[keys.len() - 1] == keys.last());
        if keys.contains(key) {
            let k = choose|k: int| 0 <= k < keys.len() && keys[k] == key;
            if k < front.len() {
                assert(front[k] == key);
            }
        }
        if front.contains(key) {
            let k = choose|k: int| 0 <= k < front.len() && front[k] == key;
            assert(keys[k] == key);
        }
        if all != before {
            assert(all[all.len() - 1] == keys.last());
            if before.contains(key) {
                let k = choose|k: int| 0 <= k < before.len() && before[k] == key;
                assert(all[k] == key);
            }
            if all.contains(key) && key != keys.last() {
                let k = choose|k: int| 0 <= k < all.len() && all[k] == key;
                assert(before[k] == key);
            }
        }
    }
}

/// A scan gives exactly the entries whose time has come, in order, up to its limit:
/// one that is due and left out comes behind all that are given, and then the limit
/// is reached.
pub proof fn law_scan_gives_what_is_due(
    keys: Seq<ReadyChunkTaskKey>,
    leases: Seq<LeasedChunkTaskKey>,
    now_ms: u64,
    max_keys: u32,
    key: ReadyChunkTaskKey,
    lease: LeasedChunkTaskKey,
)
    ensures
        ({
            let given = at_most(stable_sorted(due_ready(keys, now_ms)), max_keys as int);
            &&& given.len() <= max_keys
            &&& given.contains(key) ==> keys.contains(key) && key.eligible_at_ms <= now_ms
            &&& keys.contains(key) && key.eligible_at_ms <= now_ms && !given.contains(key)
                ==> given.len() == max_keys && forall|i: int|
                0 <= i < given.len() ==> !ready_before(key, #[trigger] given[i])
        }),
        ({
            let given = at_most(stable_sorted(due_leases(leases, now_ms)), max_keys as int);
            &&& given.len() <= max_keys
            &&& given.contains(lease) ==> leases.contains(lease) && lease.lease_deadline_ms <= now_ms
            &&& leases.contains(lease) && lease.lease_deadline_ms <= now_ms && !given.contains(lease)
                ==> given.len() == max_keys && forall|i: int|
                0 <= i < given.len() ==> !leased_before(lease, #[trigger] given[i])
        }),
{
    let max = max_keys as int;
    {
        let due = due_ready(keys, now_ms);
        let sorted = stable_sorted(due);
        let given = at_most(sorted, max);
        lemma_due_ready(keys, now_ms, key);
        lemma_stable_sorted(due);
        assert(sorted.contains(key) <==> due.contains(key));
        if given.contains(key) {
            let k = choose|k: int| 0 <= k < given.len() && given[k] == key;
            assert(sorted[k] == key);
        }
        if sorted.contains(key) && !given.contains(key) {
            let k = choose|k: int| 0 <= k < sorted.len() && sorted[k] == key;
            assert(given != sorted);
            if k < max {
                assert(given[k] == key);
            }
            assert forall|i: int| 0 <= i < given.len() implies !ready_before(
                key,
                #[trigger] given[i],
            ) by {
                assert(<ReadyChunkTaskKey as crate::order::SortKey>::not_above(
                    sorted[i],
                    sorted[k],
                ));
            }
        }
    }
    {
        let due = due_leases(leases, now_ms);
        let sorted = stable_sorted(due);
        let given = at_most(sorted, max);
        lemma_due_leases(leases, now_ms, lease);
        lemma_stable_sorted(due);
        assert(sorted.contains(lease) <==> due.contains(lease));
        if given.contains(lease) {
            let k = choose|k: int| 0 <= k < given.len() && given[k] == lease;
            assert(sorted[k] == lease);
        }
        if sorted.contains(lease) && !given.contains(lease) {
            let k = choose|k: int| 0 <= k < sorted.len() && sorted[k] == lease;
            assert(given != sorted);
            if k < max {
                assert(given[k] == lease);
            }
            assert forall|i: int| 0 <= i < given.len() implies !leased_before(
                lease,
                #[trigger] given[i],
            ) by {
                assert(<LeasedChunkTaskKey as crate::order::SortKey>::not_above(
                    sorted[i],
                    sorted[k],
                ));
            }
        }
    }
}

/// Outcomes are counted one by one.
pub proof fn law_outcomes_are_counted(values: Seq<bool>)
    ensures
        count_true(values) == values.filter(|value: bool| value).len(),
    decreases values.len(),
{
    reveal(Seq::filter);
    if values.len() > 0 {
        law_outcomes_are_counted(values.drop_last());
    }
}

proof fn lemma_handler_for(handlers: Seq<Registration>, kind: TaskKind, from: int)
    requires
        0 <= from,
    ensures
        match handler_for(handlers, kind, from) {
            Some(at) => from <= at < handlers.len() && handlers[at].kind == kind,
            None => forall|j: int|
                from <= j < handlers.len() ==> (#[trigger] handlers[j]).kind != kind,
        },
    decreases handlers.len() - from,
{
    if from < handlers.len() && handlers[from].kind != kind {
        lemma_handler_for(handlers, kind, from + 1);
    }
}

/// A task goes to a handler of its kind wherever one is registered; and a kind
/// that is registered twice is told.
pub proof fn law_tasks_go_to_their_handler(
    handlers: Seq<Registration>,
    kind: TaskKind,
    all: Seq<TaskKind>,
)
    ensures
        match handler_for(handlers, kind, 0) {
            Some(at) => 0 <= at < handlers.len() && handlers[at].kind == kind,
            None => forall|j: int| 0 <= j < handlers.len() ==> (#[trigger] handlers[j]).kind != kind,
        },
        first_repeat(all, 0) is None <==> all.no_duplicates(),
        first_repeat(all, 0) matches Some(twice) ==> exists|i: int, j: int|
            0 <= i < j < all.len() && (#[trigger] all[i]) == twice && (#[trigger] all[j]) == twice,
{
    lemma_handler_for(handlers, kind, 0);
    lemma_first_repeat(all, 0);
    if !all.no_duplicates() {
        let (i, j) = choose|i: int, j: int|
            0 <= i < all.len() && 0 <= j < all.len() && i != j && all[i] == all[j];
        if i < j {
            assert(all.take(j)[i] == all[j]);
            assert(all.take(j).contains(all[j]));
        } else {
            assert(all.take(i)[j] == all[i]);
            assert(all.take(i).contains(all[i]));
        }
    }
    if first_repeat(all, 0) is Some {
        let j = choose|j: int|
            0 <= j < all.len() && first_repeat(all, 0) == Some(all[j]) && #[trigger] all.take(
                j,
            ).contains(all[j]);
        let i = choose|i: int| 0 <= i < all.take(j).len() && all.take(j)[i] == all[j];
        assert(all[i] == all[j]);
    }
}

proof fn lemma_first_repeat(all: Seq<TaskKind>, from: int)
    requires
        0 <= from,
    ensures
        first_repeat(all, from) is None ==> forall|j: int|
            from <= j < all.len() ==> !(#[trigger] all.take(j)).contains(all[j]),
        first_repeat(all, from) is Some ==> exists|j: int|
            from <= j < all.len() && first_repeat(all, from) == Some(all[j]) && #[trigger] all.take(
                j,
            ).contains(all[j]),
    decreases all.len() - from,
{
    if from < all.len() {
        if all.take(from).contains(all[from]) {
            assert(first_repeat(all, from) == Some(all[from]));
        } else {
            lemma_first_repeat(all, from + 1);
        }
    }
}

/// A segment is referenced exactly where a strip of its own chunk holds it; it is
/// absent for its record where there is no such chunk, and unknown where the chunk
/// holds it no more.
pub proof fn law_record_tells_the_owner(
    chunk_id: ChunkId,
    segment: Segment,
    chunk: ChunkModel,
)
    requires
        segment.owner_chunk == Some(chunk_id),
    ensures
        record_owner(chunk_id, segment, Ok(chunk)) == Ok::<
            Option<SegmentOwnerDisposition>,
            OwnerErrorModel,
        >(
            if exists|i: int|
                0 <= i < chunk.strips.len() && (#[trigger] chunk.strips[i]).segments().contains(
                    segment,
                ) {
                Some(SegmentOwnerDisposition::Referenced)
            } else {
                None
            },
        ),
        record_owner(chunk_id, segment, Err(LifecycleErrorModel::ChunkNotFound)) == Ok::<
            Option<SegmentOwnerDisposition>,
            OwnerErrorModel,
        >(Some(SegmentOwnerDisposition::Absent)),
        forall|other: ChunkId|
            other != chunk_id ==> (#[trigger] record_owner(other, segment, Ok(chunk))) is Err,
{
    crate::types::lemma_segments_contains(chunk.strips, segment);
}

proof fn lemma_tasks_owner(segment: Segment, tasks: Seq<OwnerTaskModel>, from: int)
    requires
        0 <= from,
    ensures
        match tasks_owner(segment, tasks, from) {
            Ok(SegmentOwnerDisposition::Absent) => forall|j: int|
                from <= j < tasks.len() && (#[trigger] tasks[j]).state.spec_is_active() ==> (
                tasks[j].checkpoint matches Ok(checkpoint) && !checkpoint.owns(segment)),
            Ok(SegmentOwnerDisposition::TaskPending) => exists|j: int|
                from <= j < tasks.len() && (#[trigger] tasks[j]).state.spec_is_active() && (
                tasks[j].checkpoint matches Ok(checkpoint) && checkpoint.owns(segment)),
            Ok(_) => false,
            Err(_) => exists|j: int|
                from <= j < tasks.len() && (#[trigger] tasks[j]).state.spec_is_active()
                    && tasks[j].checkpoint is Err,
        },
    decreases tasks.len() - from,
{
    if from < tasks.len() {
        if !tasks[from].state.spec_is_active() {
            lemma_tasks_owner(segment, tasks, from + 1);
        } else if tasks[from].checkpoint matches Ok(checkpoint) && !checkpoint.owns(segment) {
            lemma_tasks_owner(segment, tasks, from + 1);
        }
    }
}

/// A segment is absent for the tasks only where every task with work to do can be
/// read and none of them is about to use it: as a shard of its new strip, as the
/// target of its repair or move, or as the target of its relocation.
pub proof fn law_tasks_tell_the_owner(
    segment: Segment,
    tasks: Seq<OwnerTaskModel>,
    j: int,
)
    requires
        0 <= j < tasks.len(),
        tasks[j].state == ChunkTaskState::Pending || tasks[j].state == ChunkTaskState::Running
            || tasks[j].state == ChunkTaskState::RetryWait,
        tasks_owner(segment, tasks, 0) == Ok::<SegmentOwnerDisposition, OwnerErrorModel>(
            SegmentOwnerDisposition::Absent,
        ),
    ensures
        tasks[j].checkpoint matches Ok(checkpoint) && match checkpoint {
            CheckpointModel::MirrorToEc(strip) => strip is Some
                ==> !strip->0.segments().contains(segment),
            CheckpointModel::RepairStrip(targets) => forall|i: int|
                0 <= i < targets.len() ==> (#[trigger] targets[i]).destination != segment,
            CheckpointModel::RepairPlacement(target) => target is Some ==> target->0.destination
                != segment,
            CheckpointModel::RelocateSegment(payload) => payload.target != segment,
            CheckpointModel::Other => true,
        },
{
    lemma_tasks_owner(segment, tasks, 0);
    assert(tasks[j].state.spec_is_active());
}

proof fn lemma_holder(strips: Seq<StripModel>, segment: Segment, from: int)
    requires
        0 <= from,
    ensures
        match holder_of(strips, segment, from) {
            Some(at) => from <= at < strips.len() && strips[at].segments().contains(segment),
            None => forall|j: int|
                from <= j < strips.len() ==> !(#[trigger] strips[j]).segments().contains(segment),
        },
    decreases strips.len() - from,
{
    if from < strips.len() && !strips[from].segments().contains(segment) {
        lemma_holder(strips, segment, from + 1);
    }
}

/// A relocation whose source is there and whose target is not puts the target in the
/// place of the source, in the strip that holds it, and changes nothing else. Where
/// only the target is there it was published; where both are, it is rejected; where
/// neither is, or there is no chunk, it is stale.
pub proof fn law_relocation_replaces_the_source(
    chunk: ChunkModel,
    payload: RelocateSegmentTaskPayload,
    now_ms: u64,
    layout_validity_ms: u64,
)
    ensures
        ({
            let has_source = exists|i: int|
                0 <= i < chunk.strips.len() && (#[trigger] chunk.strips[i]).segments().contains(
                    payload.source,
                );
            let has_target = exists|i: int|
                0 <= i < chunk.strips.len() && (#[trigger] chunk.strips[i]).segments().contains(
                    payload.target,
                );
            match relocation_step(Some(chunk), payload, now_ms, layout_validity_ms) {
                RelocationModel::Assess { strip_index, old_strip, replacement } => {
                    &&& has_source && !has_target
                    &&& 0 <= strip_index < chunk.strips.len()
                    &&& old_strip == chunk.strips[strip_index]
                    &&& replacement.segments().len() == old_strip.segments().len()
                    &&& exists|k: int|
                        0 <= k < old_strip.segments().len() && (#[trigger] old_strip.segments()[k])
                            == payload.source && replacement.segments()
                            == old_strip.segments().update(k, payload.target)
                    &&& replacement == StripModel { strip: replacement.strip, ..old_strip }
                },
                RelocationModel::Published { payload: next, .. } => {
                    &&& !has_source && has_target
                    &&& next == RelocateSegmentTaskPayload {
                        disposition: next.disposition,
                        source_free_not_before_ms: next.source_free_not_before_ms,
                        ..payload
                    }
                },
                RelocationModel::Finish(next) => {
                    &&& has_source == has_target
                    &&& next.disposition == if has_source {
                        RelocateSegmentTaskDisposition::Rejected
                    } else {
                        RelocateSegmentTaskDisposition::Stale
                    }
                    &&& next == RelocateSegmentTaskPayload {
                        disposition: next.disposition,
                        ..payload
                    }
                },
            }
        }),
        relocation_step(None, payload, now_ms, layout_validity_ms) == RelocationModel::Finish(
            RelocateSegmentTaskPayload {
                disposition: RelocateSegmentTaskDisposition::Stale,
                ..payload
            },
        ),
{
    lemma_holder(chunk.strips, payload.source, 0);
    lemma_holder(chunk.strips, payload.target, 0);
    if let Some(at) = holder_of(chunk.strips, payload.source, 0) {
        let old_strip = chunk.strips[at];
        let segments = old_strip.segments();
        let k = crate::repair::attempt::lemma_first_exists(segments, payload.source, 0);
        crate::repair::attempt::lemma_first_index(segments, payload.source, k);
        let replacement = with_segment(old_strip, k, payload.target);
        assert(replacement.segments() =~= segments.update(k, payload.target));
        assert(segments[k] == payload.source);
    }
}

/// A published relocation waits, from when it is first seen, as long as a layout is
/// valid; it is complete once that is over, and only then told as published.
pub proof fn law_published_relocation_waits(
    payload: RelocateSegmentTaskPayload,
    now_ms: u64,
    layout_validity_ms: u64,
)
    requires
        now_ms + layout_validity_ms <= u64::MAX,
    ensures
        crate::task::relocation::published_step(payload, now_ms, layout_validity_ms)
            matches RelocationModel::Published { payload: next, changed, complete } && {
            &&& payload.source_free_not_before_ms == 0 ==> next.source_free_not_before_ms == now_ms
                + layout_validity_ms
            &&& payload.source_free_not_before_ms != 0 ==> next.source_free_not_before_ms
                == payload.source_free_not_before_ms
            &&& complete <==> now_ms >= next.source_free_not_before_ms
            &&& complete ==> next.disposition == RelocateSegmentTaskDisposition::Published && changed
            &&& !complete ==> next.disposition == payload.disposition && (changed
                <==> payload.source_free_not_before_ms == 0)
        },
{
}

/// A move weakens a strip exactly where a domain loses its protection or where more
/// fragments than before stand in one domain.
pub proof fn law_weaker_is_less_protected(current: PlacementAssessment, next: PlacementAssessment)
    ensures
        !weakens(current, next) <==> {
            &&& current.rack_protected ==> next.rack_protected
            &&& current.node_protected ==> next.node_protected
            &&& current.disk_protected ==> next.disk_protected
            &&& next.max_fragments_per_rack <= current.max_fragments_per_rack
            &&& next.max_fragments_per_node <= current.max_fragments_per_node
            &&& next.max_fragments_per_disk <= current.max_fragments_per_disk
        },
{
}

/// A mirrored strip can lose all copies but one, an erasure-coded one as many
/// shards as it has parity.
pub proof fn law_loss_budget_leaves_enough(strip: StripModel)
    ensures
        strip.strip matches Some(LayoutModel::Mirror { segments }) ==> (0 < segments.len()
            <= u32::MAX ==> loss_budget_of(strip) == Some((segments.len() - 1) as u32)),
        strip.strip matches Some(LayoutModel::Ec { code_num, .. }) ==> loss_budget_of(strip) == Some(
            code_num,
        ),
        strip.strip is None ==> loss_budget_of(strip) is None,
{
}

/// A handoff is taken exactly where it names all its parts, carries the operation
/// of its source, and moves a segment of the chunk with some units to another of
/// the same size, both on known disks and allocated. What is taken is what was named.
pub proof fn law_handoffs_are_checked(
    request: RelocateSegmentHandoffRequest,
    source_operation: Option<ChunkId>,
)
    ensures
        handoff_payload(request, source_operation) is Ok <==> {
            &&& request.operation_id is Some
            &&& request.chunk_id is Some
            &&& request.source is Some
            &&& request.target is Some
            &&& source_operation == request.operation_id
            &&& request.source != request.target
            &&& request.source->0.disk_id is Some && request.target->0.disk_id is Some
            &&& request.source->0.owner_chunk == request.chunk_id
            &&& request.target->0.owner_chunk == request.chunk_id
            &&& request.source->0.unit_count > 0
            &&& request.source->0.unit_count == request.target->0.unit_count
            &&& request.source->0.allocation_ts > 0 && request.target->0.allocation_ts > 0
        },
        handoff_payload(request, source_operation) matches Ok(payload) ==> {
            &&& Some(payload.operation_id) == request.operation_id
            &&& Some(payload.chunk_id) == request.chunk_id
            &&& Some(payload.source) == request.source
            &&& Some(payload.target) == request.target
            &&& payload.disposition == RelocateSegmentTaskDisposition::Accepted
            &&& payload.source_free_not_before_ms == 0
            &&& payload.expected_modify_ts is None && payload.strip_index is None
        },
{
}

} // verus!
