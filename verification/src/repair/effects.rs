//! What a repair is for, told on the strips and segments that it is about.
use vstd::prelude::*;
use crate::conversion::attempt::readable;
use crate::lifecycle::handler::strip_with_sequence;
use crate::lifecycle::replace::{distinct_without, lemma_distinct_without};
use crate::order::{is_sorted, lemma_stable_sorted, stable_sorted};
use crate::repair::{
    deduped, failed_of, plan_of, plans_of, readmitted, repair_id, repair_id_parts, repair_task,
    segment_before, RepairModel, RepairPlanModel,
};
use crate::repair::attempt::{
    among, disks_of, ec_verdict, lemma_first_index, mirror_verdict, recovery_of, repaired,
    replaced_through, unread, with_failures, RepairRunModel, VerdictModel,
};
use crate::task::{ChunkTaskState, TaskKind, TaskModel, TaskVersions};
use crate::types::{ChunkId, ChunkModel, LayoutModel, Segment, StripModel};

verus! {

proof fn lemma_deduped_contains(segments: Seq<Segment>, s: Segment)
    ensures
        deduped(segments).contains(s) <==> segments.contains(s),
        segments.len() > 0 ==> deduped(segments).len() > 0 && deduped(segments).last()
            == segments.last(),
    decreases segments.len(),
{
    if segments.len() > 0 {
        let front = segments.drop_last();
        let kept = deduped(front);
        let all = deduped(segments);
        lemma_deduped_contains(front, s);
        assert(segments[segments.len() - 1] == segments.last());
        if segments.contains(s) {
            let k = choose|k: int| 0 <= k < segments.len() && segments[k] == s;
            if k < front.len() {
                assert(front[k] == s);
                let i = choose|i: int| 0 <= i < kept.len() && kept[i] == s;
                assert(all[i] == s);
            } else {
                assert(all[all.len() - 1] == s);
            }
        }
        if all.contains(s) {
            let i = choose|i: int| 0 <= i < all.len() && all[i] == s;
            if i < kept.len() {
                assert(kept[i] == s);
                let k = choose|k: int| 0 <= k < front.len() && front[k] == s;
                assert(segments[k] == s);
            }
        }
    }
}

proof fn lemma_deduped_once(segments: Seq<Segment>)
    requires
        is_sorted(segments),
        forall|i: int, j: int|
            0 <= i < segments.len() && 0 <= j < segments.len() && !segment_before(
                #[trigger] segments[i],
                #[trigger] segments[j],
            ) && !segment_before(segments[j], segments[i]) ==> segments[i] == segments[j],
    ensures
        deduped(segments).no_duplicates(),
    decreases segments.len(),
{
    if segments.len() > 0 {
        let front = segments.drop_last();
        let n = segments.len() as int;
        assert forall|i: int, j: int| 0 <= i < j < front.len() implies
            <Segment as crate::order::SortKey>::not_above(#[trigger] front[i], #[trigger] front[j])
            by {
            assert(<Segment as crate::order::SortKey>::not_above(segments[i], segments[j]));
        }
        assert forall|i: int, j: int|
            0 <= i < front.len() && 0 <= j < front.len() && !segment_before(
                #[trigger] front[i],
                #[trigger] front[j],
            ) && !segment_before(front[j], front[i]) implies front[i] == front[j] by {
            assert(front[i] == segments[i] && front[j] == segments[j]);
        }
        lemma_deduped_once(front);
        if n == 1 || segments[n - 2] != segments.last() {
            let kept = deduped(front);
            assert forall|k: int| 0 <= k < kept.len() implies kept[k] != segments.last() by {
                lemma_deduped_contains(front, kept[k]);
                assert(kept.contains(kept[k]));
                let m = choose|m: int| 0 <= m < front.len() && front[m] == kept[k];
                if kept[k] == segments.last() {
                    assert(segments[m] == segments[n - 1]);
                    if m < n - 2 {
                        assert(<Segment as crate::order::SortKey>::not_above(
                            segments[m],
                            segments[n - 2],
                        ));
                        assert(<Segment as crate::order::SortKey>::not_above(
                            segments[n - 2],
                            segments[n - 1],
                        ));
                    }
                    assert(segments[n - 2] == segments[n - 1]);
                }
            }
        }
    }
}

/// Every strip of a chunk that has marked segments gets exactly one repair, whether
/// it is mirrored or erasure-coded, and no other strip gets one. The repair is for
/// this chunk and this strip, and for its marked segments: all of them and nothing
/// else.
pub proof fn law_every_marked_strip_is_repaired(chunk_id: ChunkId, strips: Seq<StripModel>)
    ensures
        ({
            let marked = strips.filter(|strip: StripModel| strip.unavailable_segments.len() > 0);
            let plans = plans_of(chunk_id, strips);
            &&& plans.len() == marked.len()
            &&& forall|i: int|
                0 <= i < plans.len() ==> {
                    &&& (#[trigger] plans[i]).payload.chunk_id == chunk_id
                    &&& plans[i].payload.strip_sequence == marked[i].strip_sequence
                    &&& forall|s: Segment| #[trigger]
                        plans[i].payload.failed_segments.contains(s)
                            <==> marked[i].unavailable_segments.contains(s)
                }
        }),
    decreases strips.len(),
{
    reveal(Seq::filter);
    if strips.len() > 0 {
        let is_marked = |strip: StripModel| strip.unavailable_segments.len() > 0;
        law_every_marked_strip_is_repaired(chunk_id, strips.drop_last());
        let last = strips.last();
        let before = plans_of(chunk_id, strips.drop_last());
        let plans = plans_of(chunk_id, strips);
        let marked = strips.filter(is_marked);
        let marked_before = strips.drop_last().filter(is_marked);
        assert forall|s: Segment| #[trigger] failed_of(last).contains(s)
            <==> last.unavailable_segments.contains(s) by {
            lemma_stable_sorted(last.unavailable_segments);
            lemma_deduped_contains(stable_sorted(last.unavailable_segments), s);
            assert(stable_sorted(last.unavailable_segments).contains(s)
                <==> last.unavailable_segments.contains(s));
        }
        assert forall|i: int| 0 <= i < plans.len() implies {
            &&& (#[trigger] plans[i]).payload.chunk_id == chunk_id
            &&& plans[i].payload.strip_sequence == marked[i].strip_sequence
            &&& forall|s: Segment| #[trigger]
                plans[i].payload.failed_segments.contains(s)
                    <==> marked[i].unavailable_segments.contains(s)
        } by {
            if i < before.len() {
                assert(plans[i] == before[i]);
                assert(marked[i] == marked_before[i]);
            } else {
                assert(marked[i] == last);
                assert(plans[i].payload.failed_segments == failed_of(last));
            }
        }
    }
}

/// A repair names each of its segments once, where no two marked segments agree in
/// disk, zone, offset and time, and in the order of these.
pub proof fn law_failed_segments_are_named_once(chunk_id: ChunkId, strip: StripModel)
    requires
        forall|i: int, j: int|
            0 <= i < strip.unavailable_segments.len() && 0 <= j < strip.unavailable_segments.len()
                && (#[trigger] strip.unavailable_segments[i]).disk_id == (
            #[trigger] strip.unavailable_segments[j]).disk_id
                && strip.unavailable_segments[i].zone_index
                == strip.unavailable_segments[j].zone_index
                && strip.unavailable_segments[i].unit_offset
                == strip.unavailable_segments[j].unit_offset
                && strip.unavailable_segments[i].allocation_ts
                == strip.unavailable_segments[j].allocation_ts ==> strip.unavailable_segments[i]
                == strip.unavailable_segments[j],
        forall|i: int|
            0 <= i < strip.unavailable_segments.len() ==> (
            #[trigger] strip.unavailable_segments[i]).disk_id is Some,
    ensures
        plan_of(chunk_id, strip).payload.failed_segments.no_duplicates(),
{
    let marked = strip.unavailable_segments;
    let sorted = stable_sorted(marked);
    lemma_stable_sorted(marked);
    assert forall|i: int, j: int|
        0 <= i < sorted.len() && 0 <= j < sorted.len() && !segment_before(
            #[trigger] sorted[i],
            #[trigger] sorted[j],
        ) && !segment_before(sorted[j], sorted[i]) implies sorted[i] == sorted[j] by {
        assert(sorted.contains(sorted[i]) && sorted.contains(sorted[j]));
        let a = choose|a: int| 0 <= a < marked.len() && marked[a] == sorted[i];
        let b = choose|b: int| 0 <= b < marked.len() && marked[b] == sorted[j];
        assert(marked[a].disk_id == marked[b].disk_id);
    }
    lemma_deduped_once(sorted);
}

/// Sorted segments ascend by disk, then by zone, by offset and by time.
pub proof fn law_segments_ascend(segments: Seq<Segment>, i: int, j: int)
    requires
        0 <= i < j < segments.len(),
        forall|k: int| 0 <= k < segments.len() ==> (#[trigger] segments[k]).disk_id is Some,
    ensures
        stable_sorted(segments).to_multiset() == segments.to_multiset(),
        ({
            let a = stable_sorted(segments)[i];
            let b = stable_sorted(segments)[j];
            let (da, db) = (a.disk_id->0, b.disk_id->0);
            &&& da.high <= db.high
            &&& da.high == db.high ==> da.low <= db.low
            &&& da == db ==> a.zone_index <= b.zone_index
            &&& da == db && a.zone_index == b.zone_index ==> a.unit_offset <= b.unit_offset
            &&& da == db && a.zone_index == b.zone_index && a.unit_offset == b.unit_offset
                ==> a.allocation_ts <= b.allocation_ts
        }),
{
    let sorted = stable_sorted(segments);
    lemma_stable_sorted(segments);
    assert(sorted.contains(sorted[i]) && sorted.contains(sorted[j]));
    let a = choose|a: int| 0 <= a < segments.len() && segments[a] == sorted[i];
    let b = choose|b: int| 0 <= b < segments.len() && segments[b] == sorted[j];
    assert(segments[a].disk_id is Some && segments[b].disk_id is Some);
    assert(<Segment as crate::order::SortKey>::not_above(sorted[i], sorted[j]));
}

proof fn lemma_repair_ids(a: u32, b: u32, segments: Seq<Segment>)
    requires
        a != b,
    ensures
        repair_id_parts(a, segments).0 != repair_id_parts(b, segments).0,
    decreases segments.len(),
{
    if segments.len() == 0 {
        assert(0x1110_0000_0000_0002u64 ^ (a as u64) != 0x1110_0000_0000_0002u64 ^ (b as u64)) by (
        bit_vector)
            requires
                a != b,
        ;
    } else {
        lemma_repair_ids(a, b, segments.drop_last());
        let x = repair_id_parts(a, segments.drop_last()).0;
        let y = repair_id_parts(b, segments.drop_last()).0;
        let disk = crate::repair::disk_or_zero(segments.last()).high;
        let offset = segments.last().unit_offset;
        assert(x != y ==> ((x << 11u64) | (x >> 53u64)) ^ disk ^ offset != ((y << 11u64) | (y
            >> 53u64)) ^ disk ^ offset) by (bit_vector);
    }
}

/// Repairs of different strips have different tasks, and so have repairs of one
/// strip whose last segment differs in one of disk, zone, offset and time.
pub proof fn law_repairs_are_told_apart(
    a: u32,
    b: u32,
    segments: Seq<Segment>,
    first: Segment,
    second: Segment,
)
    requires
        first.disk_id is Some,
        second.disk_id is Some,
    ensures
        a != b ==> repair_id(a, segments) != repair_id(b, segments),
        first.unit_offset != second.unit_offset && second == (Segment {
            unit_offset: second.unit_offset,
            ..first
        }) ==> repair_id(a, segments.push(first)) != repair_id(a, segments.push(second)),
        first.allocation_ts != second.allocation_ts && second == (Segment {
            allocation_ts: second.allocation_ts,
            ..first
        }) ==> repair_id(a, segments.push(first)) != repair_id(a, segments.push(second)),
        first.zone_index != second.zone_index && second == (Segment {
            zone_index: second.zone_index,
            ..first
        }) ==> repair_id(a, segments.push(first)) != repair_id(a, segments.push(second)),
        first.disk_id != second.disk_id && second == (Segment { disk_id: second.disk_id, ..first })
            ==> repair_id(a, segments.push(first)) != repair_id(a, segments.push(second)),
{
    if a != b {
        lemma_repair_ids(a, b, segments);
    }
    assert(segments.push(first).drop_last() =~= segments);
    assert(segments.push(second).drop_last() =~= segments);
    let (high, low) = repair_id_parts(a, segments);
    let h = crate::arith::rotated_left(high, 11);
    let l = crate::arith::rotated_left(low, 17);
    let (dh, eh) = (first.disk_id->0.high, second.disk_id->0.high);
    let (dl, el) = (first.disk_id->0.low, second.disk_id->0.low);
    let (ao, bo) = (first.unit_offset, second.unit_offset);
    let (at, bt) = (first.allocation_ts, second.allocation_ts);
    let (az, bz) = (first.zone_index as u64, second.zone_index as u64);
    assert(ao != bo ==> h ^ dh ^ ao != h ^ dh ^ bo) by (bit_vector);
    assert(dh != eh ==> h ^ dh ^ ao != h ^ eh ^ ao) by (bit_vector);
    assert(dl != el ==> l ^ dl ^ at ^ az != l ^ el ^ at ^ az) by (bit_vector);
    assert(at != bt ==> l ^ dl ^ at ^ az != l ^ dl ^ bt ^ az) by (bit_vector);
    assert(az != bz ==> l ^ dl ^ at ^ az != l ^ dl ^ at ^ bz) by (bit_vector);
}

/// The task of a repair waits unclaimed before all other work, in its chunk's
/// partition, for the revision at which the damage was seen.
pub proof fn law_repair_tasks_wait_first(
    plan: RepairPlanModel,
    source_revision: u64,
    bytes: Seq<u8>,
    now_ms: u64,
    versions: TaskVersions,
)
    ensures
        ({
            let task = repair_task(plan, source_revision, bytes, now_ms, versions);
            &&& task.task_id == plan.task_id
            &&& task.partition_id == plan.payload.chunk_id
            &&& task.kind == TaskKind::RepairStrip
            &&& task.state == ChunkTaskState::Pending
            &&& task.priority == 255
            &&& task.revision == 1
            &&& task.source_revision == source_revision
            &&& task.created_at_ms == now_ms && task.updated_at_ms == now_ms
            &&& task.eligible_at_ms == 0
            &&& task.attempt == 0 && task.max_attempts == u32::MAX
            &&& task.claim_owner == 0 && task.claim_generation == 0 && task.claim_deadline_ms == 0
            &&& task.payload == bytes
            &&& task.estimated_queue_bytes == plan.estimated_bytes
            &&& task.schema_version == versions.schema && task.kind_version == versions.payload
        }),
{
}

/// A task that is there and has work to do is left alone. One that ended is
/// admitted again as the fresh one, one revision on, with its age and its claims
/// kept.
pub proof fn law_ended_tasks_are_admitted_again(stored: Option<TaskModel>, fresh: TaskModel)
    ensures
        readmitted(stored, fresh) is None <==> stored is Some && (stored->0.state
            == ChunkTaskState::Pending || stored->0.state == ChunkTaskState::Running
            || stored->0.state == ChunkTaskState::RetryWait),
        stored is None ==> readmitted(stored, fresh) == Some(fresh),
        stored is Some ==> (readmitted(stored, fresh) matches Some(task) ==> {
            &&& stored->0.revision < u64::MAX ==> task.revision == stored->0.revision + 1
            &&& task.created_at_ms == stored->0.created_at_ms
            &&& task.claim_generation == stored->0.claim_generation
            &&& task == TaskModel {
                revision: task.revision,
                created_at_ms: task.created_at_ms,
                claim_generation: task.claim_generation,
                ..fresh
            }
        }),
{
}

proof fn lemma_among_is(segments: Seq<Segment>, others: Seq<Segment>)
    ensures
        among(segments, others) == segments.filter(|s: Segment| others.contains(s)),
        readable(segments, others) == segments.filter(|s: Segment| !others.contains(s)),
        segments.filter(|s: Segment| others.contains(s)).len() + segments.filter(
            |s: Segment| !others.contains(s),
        ).len() == segments.len(),
    decreases segments.len(),
{
    reveal(Seq::filter);
    if segments.len() > 0 {
        lemma_among_is(segments.drop_last(), others);
    }
}

/// The segments that can be read are those that are not marked, in their order.
pub proof fn law_readable_segments_are_unmarked(segments: Seq<Segment>, unavailable: Seq<Segment>)
    ensures
        readable(segments, unavailable) == segments.filter(|s: Segment| !unavailable.contains(s)),
{
    lemma_among_is(segments, unavailable);
}

proof fn lemma_sequence(strips: Seq<StripModel>, sequence: u32, from: int)
    requires
        0 <= from,
    ensures
        match strip_with_sequence(strips, sequence, from) {
            Some(k) => from <= k < strips.len() && strips[k].strip_sequence == sequence && forall|
                j: int,
            |
                from <= j < k ==> (#[trigger] strips[j]).strip_sequence != sequence,
            None => forall|j: int|
                from <= j < strips.len() ==> (#[trigger] strips[j]).strip_sequence != sequence,
        },
    decreases strips.len() - from,
{
    if from < strips.len() && strips[from].strip_sequence != sequence {
        lemma_sequence(strips, sequence, from + 1);
    }
}

/// What is recovered are the marked segments that the strip with the repair's
/// sequence still holds. The memory asked for holds all its segments and one more,
/// and stays within the limit.
pub proof fn law_recovery_is_of_what_is_marked(
    chunk: ChunkModel,
    payload: RepairModel,
    memory_limit: usize,
)
    ensures
        recovery_of(chunk, payload, memory_limit) matches Ok(Some(plan)) ==> {
            let strip = chunk.strips[plan.strip_index];
            &&& 0 <= plan.strip_index < chunk.strips.len()
            &&& strip.strip_sequence == payload.strip_sequence
            &&& forall|j: int|
                0 <= j < plan.strip_index ==> (#[trigger] chunk.strips[j]).strip_sequence
                    != payload.strip_sequence
            &&& strip.strip matches Some(layout)
            &&& plan.segments == (match layout {
                LayoutModel::Mirror { segments } => segments,
                LayoutModel::Ec { segments, .. } => segments,
            })
            &&& plan.unavailable == strip.unavailable_segments.filter(
                |s: Segment| plan.segments.contains(s),
            )
            &&& plan.unavailable.len() > 0
            &&& plan.unit_bytes == strip.unit_kb * 1024
            &&& plan.shard_bytes == plan.segments[0].unit_count * (strip.unit_kb * 1024)
            &&& plan.segments.len() < usize::MAX ==> plan.required == plan.shard_bytes * (
            plan.segments.len() + 1)
            &&& plan.required <= memory_limit
        },
        (forall|j: int|
            0 <= j < chunk.strips.len() ==> (#[trigger] chunk.strips[j]).strip_sequence
                != payload.strip_sequence) ==> recovery_of(chunk, payload, memory_limit) == Ok::<
            Option<crate::repair::attempt::RecoveryModel>,
            RepairRunModel,
        >(None),
{
    lemma_sequence(chunk.strips, payload.strip_sequence, 0);
    if let Some(k) = strip_with_sequence(chunk.strips, payload.strip_sequence, 0) {
        lemma_among_is(chunk.strips[k].unavailable_segments, chunk.strips[k].segments());
    }
}

proof fn lemma_unread_contains(segments: Seq<Segment>, read: Seq<bool>, s: Segment)
    requires
        segments.len() <= read.len(),
    ensures
        unread(segments, read).contains(s) <==> exists|i: int|
            0 <= i < segments.len() && (#[trigger] segments[i]) == s && !read[i],
    decreases segments.len(),
{
    if segments.len() > 0 {
        let front = segments.drop_last();
        let n = segments.len() - 1;
        let before = unread(front, read);
        let all = unread(segments, read);
        lemma_unread_contains(front, read, s);
        assert(segments[n] == segments.last());
        if all.contains(s) {
            let k = choose|k: int| 0 <= k < all.len() && all[k] == s;
            if k < before.len() {
                assert(before[k] == s);
                let i = choose|i: int| 0 <= i < front.len() && (#[trigger] front[i]) == s && !read[i];
                assert(segments[i] == s);
            }
        }
        if exists|i: int| 0 <= i < segments.len() && (#[trigger] segments[i]) == s && !read[i] {
            let i = choose|i: int|
                0 <= i < segments.len() && (#[trigger] segments[i]) == s && !read[i];
            if i < n {
                assert(front[i] == s);
                let k = choose|k: int| 0 <= k < before.len() && before[k] == s;
                assert(all[k] == s);
            } else {
                assert(all[all.len() - 1] == s);
            }
        }
    }
}

/// A mirrored strip is usable exactly where some copy was read and none failed that
/// is not marked yet. New failures are told, each once, and nothing else.
pub proof fn law_mirror_reads_are_judged(
    segments: Seq<Segment>,
    unavailable: Seq<Segment>,
    read: Seq<bool>,
)
    requires
        read.len() <= segments.len(),
    ensures
        ({
            let failed = |s: Segment|
                !unavailable.contains(s) && exists|i: int|
                    0 <= i < read.len() && (#[trigger] segments[i]) == s && !read[i];
            &&& (mirror_verdict(segments, unavailable, read) matches Ok(VerdictModel::Usable)) <==> ((
            forall|s: Segment| !(#[trigger] failed(s))) && (exists|i: int|
                0 <= i < read.len() && #[trigger] read[i]))
            &&& mirror_verdict(segments, unavailable, read) matches Ok(VerdictModel::NewFailures(
                failures,
            )) ==> failures.no_duplicates() && failures.len() > 0 && forall|s: Segment| #[trigger]
                failures.contains(s) <==> failed(s)
            &&& mirror_verdict(segments, unavailable, read) is Err <==> ((forall|s: Segment|
                !(#[trigger] failed(s))) && (forall|i: int|
                0 <= i < read.len() ==> !(#[trigger] read[i])))
        }),
{
    let failed = |s: Segment|
        !unavailable.contains(s) && exists|i: int|
            0 <= i < read.len() && (#[trigger] segments[i]) == s && !read[i];
    let tried = segments.take(read.len() as int);
    let failures = distinct_without(unread(tried, read), unavailable);
    lemma_distinct_without(unread(tried, read), unavailable);
    assert forall|s: Segment| #[trigger] failures.contains(s) <==> failed(s) by {
        lemma_unread_contains(tried, read, s);
        if exists|i: int| 0 <= i < read.len() && (#[trigger] segments[i]) == s && !read[i] {
            let i = choose|i: int| 0 <= i < read.len() && (#[trigger] segments[i]) == s && !read[i];
            assert(tried[i] == s);
        }
        if exists|i: int| 0 <= i < tried.len() && (#[trigger] tried[i]) == s && !read[i] {
            let i = choose|i: int| 0 <= i < tried.len() && (#[trigger] tried[i]) == s && !read[i];
            assert(segments[i] == s);
        }
    }
    if failures.len() > 0 {
        assert(failures.contains(failures[0]));
        assert(failed(failures[0]));
    } else {
        assert forall|s: Segment| !(#[trigger] failed(s)) by {
            assert(!failures.contains(s));
        }
    }
    if exists|i: int| 0 <= i < read.len() && #[trigger] read[i] {
        let i = choose|i: int| 0 <= i < read.len() && #[trigger] read[i];
        assert(read.contains(true));
    }
    if read.contains(true) {
        let i = choose|i: int| 0 <= i < read.len() && read[i] == true;
        assert(read[i]);
    }
}

/// An erasure-coded strip is usable exactly where no read failed of a segment that
/// is not marked yet, and no more of its segments are marked than it has parity.
pub proof fn law_coded_reads_are_judged(
    segments: Seq<Segment>,
    unavailable: Seq<Segment>,
    read: Seq<bool>,
    code_num: u32,
)
    requires
        read.len() == segments.len(),
    ensures
        ({
            let failed = |s: Segment|
                !unavailable.contains(s) && exists|i: int|
                    0 <= i < read.len() && (#[trigger] segments[i]) == s && !read[i];
            &&& (ec_verdict(segments, unavailable, read, code_num) matches Ok(VerdictModel::Usable))
                <==> ((forall|s: Segment| !(#[trigger] failed(s))) && segments.filter(
                |s: Segment| unavailable.contains(s),
            ).len() <= code_num)
            &&& ec_verdict(segments, unavailable, read, code_num) matches Ok(
                VerdictModel::NewFailures(failures),
            ) ==> failures.no_duplicates() && failures.len() > 0 && forall|s: Segment| #[trigger]
                failures.contains(s) <==> failed(s)
            &&& ec_verdict(segments, unavailable, read, code_num) is Err <==> ((forall|s: Segment|
                !(#[trigger] failed(s))) && segments.filter(
                |s: Segment| unavailable.contains(s),
            ).len() > code_num)
        }),
{
    let failed = |s: Segment|
        !unavailable.contains(s) && exists|i: int|
            0 <= i < read.len() && (#[trigger] segments[i]) == s && !read[i];
    let failures = distinct_without(unread(segments, read), unavailable);
    lemma_distinct_without(unread(segments, read), unavailable);
    lemma_among_is(segments, unavailable);
    assert forall|s: Segment| #[trigger] failures.contains(s) <==> failed(s) by {
        lemma_unread_contains(segments, read, s);
    }
    if failures.len() > 0 {
        assert(failures.contains(failures[0]));
        assert(failed(failures[0]));
    } else {
        assert forall|s: Segment| !(#[trigger] failed(s)) by {
            assert(!failures.contains(s));
        }
    }
}

/// Marking failures adds them to the marked segments of the strip and changes
/// nothing else.
pub proof fn law_failures_are_marked(strip: StripModel, failures: Seq<Segment>)
    ensures
        ({
            let next = with_failures(strip, failures);
            &&& forall|s: Segment| #[trigger]
                next.unavailable_segments.contains(s) <==> strip.unavailable_segments.contains(s)
                    || failures.contains(s)
            &&& next == StripModel { unavailable_segments: next.unavailable_segments, ..strip }
        }),
{
    let marked = strip.unavailable_segments;
    let more = distinct_without(failures, marked);
    lemma_distinct_without(failures, marked);
    lemma_stable_sorted(marked + more);
    let next = with_failures(strip, failures);
    assert forall|s: Segment| #[trigger] next.unavailable_segments.contains(s) <==> marked.contains(s)
        || failures.contains(s) by {
        assert((marked + more).contains(s) <==> marked.contains(s) || more.contains(s)) by {
            if marked.contains(s) {
                let k = choose|k: int| 0 <= k < marked.len() && marked[k] == s;
                assert((marked + more)[k] == s);
            }
            if more.contains(s) {
                let k = choose|k: int| 0 <= k < more.len() && more[k] == s;
                assert((marked + more)[marked.len() + k] == s);
            }
        }
    }
}

/// The disks of a run of segments, in order.
pub proof fn law_disks_are_of_the_segments(segments: Seq<Segment>)
    ensures
        disks_of(segments) == segments.filter(|s: Segment| s.disk_id is Some).map_values(
            |s: Segment| s.disk_id->0,
        ),
    decreases segments.len(),
{
    reveal(Seq::filter);
    let named = |s: Segment| s.disk_id is Some;
    let disk = |s: Segment| s.disk_id->0;
    if segments.len() > 0 {
        law_disks_are_of_the_segments(segments.drop_last());
        let front = segments.drop_last().filter(named);
        if named(segments.last()) {
            assert(front.push(segments.last()).map_values(disk) =~= front.map_values(disk).push(
                disk(segments.last()),
            ));
        }
        assert(disks_of(segments) =~= segments.filter(named).map_values(disk));
    } else {
        assert(disks_of(segments) =~= segments.filter(named).map_values(disk));
    }
}

proof fn lemma_replaced_in_place(strip: StripModel, failed: Seq<Segment>, fresh: Seq<Segment>, n: int)
    requires
        0 <= n <= failed.len(),
        failed.len() == fresh.len(),
        strip.strip is Some,
        strip.segments().no_duplicates(),
        failed.no_duplicates(),
        forall|i: int| 0 <= i < failed.len() ==> strip.segments().contains(#[trigger] failed[i]),
        forall|i: int| 0 <= i < fresh.len() ==> !strip.segments().contains(#[trigger] fresh[i]),
    ensures
        replaced_through(strip, failed, fresh, n) is Some,
        ({
            let next = replaced_through(strip, failed, fresh, n)->0;
            &&& next.strip is Some
            &&& next == StripModel { strip: next.strip, ..strip }
            &&& next.segments().len() == strip.segments().len()
            &&& next.strip->0 == strip.strip->0.with_segments(next.segments())
            &&& forall|i: int, k: int|
                0 <= i < strip.segments().len() && 0 <= k < n && (
                #[trigger] strip.segments()[i]) == (#[trigger] failed[k]) ==> next.segments()[i]
                    == fresh[k]
            &&& forall|i: int|
                0 <= i < strip.segments().len() && (forall|k: int|
                    0 <= k < n ==> #[trigger] failed[k] != strip.segments()[i])
                    ==> #[trigger] next.segments()[i] == strip.segments()[i]
        }),
    decreases n,
{
    let old = strip.segments();
    if n > 0 {
        lemma_replaced_in_place(strip, failed, fresh, n - 1);
        let current = replaced_through(strip, failed, fresh, n - 1)->0;
        let now = current.segments();
        let wanted = failed[n - 1];
        let p = choose|p: int| 0 <= p < old.len() && old[p] == wanted;
        assert forall|k: int| 0 <= k < n - 1 implies #[trigger] failed[k] != old[p] by {}
        assert(now[p] == old[p]);
        assert(now.contains(wanted));
        assert forall|j: int| 0 <= j < now.len() && j != p implies now[j] != wanted by {
            if exists|k: int| 0 <= k < n - 1 && #[trigger] failed[k] == old[j] {
                let k = choose|k: int| 0 <= k < n - 1 && #[trigger] failed[k] == old[j];
                assert(now[j] == fresh[k]);
                assert(!old.contains(fresh[k]));
                assert(old.contains(wanted));
            } else {
                assert(now[j] == old[j]);
            }
        }
        assert(crate::task::relocation::first_at(now, wanted, p));
        lemma_first_index(now, wanted, p);
        let next = replaced_through(strip, failed, fresh, n)->0;
        assert(next.segments() =~= now.update(p, fresh[n - 1]));
        assert forall|i: int, k: int|
            0 <= i < old.len() && 0 <= k < n && (#[trigger] old[i]) == (
            #[trigger] failed[k]) implies next.segments()[i] == fresh[k] by {
            if k == n - 1 {
                assert(i == p);
            } else {
                assert(i != p) by {
                    assert(failed[k] != failed[n - 1]);
                }
            }
        }
        assert forall|i: int|
            0 <= i < old.len() && (forall|k: int| 0 <= k < n ==> #[trigger] failed[k]
                != old[i]) implies #[trigger] next.segments()[i] == old[i] by {
            assert(failed[n - 1] != old[i]);
            assert(i != p);
        }
    } else {
        assert(strip.strip->0 == strip.strip->0.with_segments(old));
    }
}

/// A repaired strip has each fresh segment in the place of the failed one that it
/// stands for, every other segment where it was, the same shape, and the failed
/// segments are marked no more.
pub proof fn law_fresh_segments_take_the_places(
    strip: StripModel,
    failed: Seq<Segment>,
    fresh: Seq<Segment>,
)
    requires
        failed.len() == fresh.len(),
        strip.strip is Some,
        strip.segments().no_duplicates(),
        failed.no_duplicates(),
        forall|i: int| 0 <= i < failed.len() ==> strip.segments().contains(#[trigger] failed[i]),
        forall|i: int| 0 <= i < fresh.len() ==> !strip.segments().contains(#[trigger] fresh[i]),
    ensures
        repaired(strip, failed, fresh) matches Ok(next) && {
            &&& next.segments().len() == strip.segments().len()
            &&& forall|i: int, k: int|
                0 <= i < strip.segments().len() && 0 <= k < failed.len() && (
                #[trigger] strip.segments()[i]) == (#[trigger] failed[k]) ==> next.segments()[i]
                    == fresh[k]
            &&& forall|i: int|
                0 <= i < strip.segments().len() && !failed.contains(strip.segments()[i])
                    ==> #[trigger] next.segments()[i] == strip.segments()[i]
            &&& next.unavailable_segments == strip.unavailable_segments.filter(
                |s: Segment| !failed.contains(s),
            )
            &&& match (strip.strip->0, next.strip) {
                (LayoutModel::Mirror { .. }, Some(LayoutModel::Mirror { .. })) => true,
                (
                    LayoutModel::Ec { data_num, code_num, ec_state, .. },
                    Some(LayoutModel::Ec { data_num: d, code_num: c, ec_state: e, .. }),
                ) => data_num == d && code_num == c && ec_state == e,
                _ => false,
            }
            &&& next == StripModel {
                strip: next.strip,
                unavailable_segments: next.unavailable_segments,
                ..strip
            }
        },
{
    lemma_replaced_in_place(strip, failed, fresh, failed.len() as int);
    lemma_among_is(strip.unavailable_segments, failed);
    let next = repaired(strip, failed, fresh)->Ok_0;
    assert forall|i: int|
        0 <= i < strip.segments().len() && !failed.contains(
            strip.segments()[i],
        ) implies #[trigger] next.segments()[i] == strip.segments()[i] by {
        assert forall|k: int| 0 <= k < failed.len() implies #[trigger] failed[k]
            != strip.segments()[i] by {
            assert(failed.contains(failed[k]));
        }
        let placed = replaced_through(strip, failed, fresh, failed.len() as int)->0;
        assert(placed.segments()[i] == strip.segments()[i]);
    }
}

} // verus!
