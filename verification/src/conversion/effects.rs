//! What conversion finds, prepares and completes, told on the strips of the chunk.
use vstd::prelude::*;
use crate::conversion::{
    aged, continues_run, io_of, is_candidate, source_now, source_valid, window_from,
    ConversionModel, MirrorToEcPhase,
};
use crate::conversion::coordinator::{
    background_task, client_task, complete_step, completed_task, due_recovery, group_starts,
    groups_of, mirrored, prepare_step, reservation_cursor, with_checkpoint, with_replacement,
    CompleteModel, PrepareModel, RequestModel, StoredModel,
};
use crate::lifecycle::reservation::{GroupModel, StripReservationGroup};
use crate::task::{ChunkTaskState, TaskKind, TaskModel, TaskVersions};
use crate::types::{
    total_capacity, ChunkId, ChunkModel, ChunkState, EcState, LayoutModel, StripModel,
};

verus! {

/// So many strips of the chunk from `start` on can become one erasure-coded strip:
/// they are mirrored, of the same size, lie one behind the other, nothing is
/// written into them any more, and they are old enough where that counts.
#[verifier::opaque]
pub open spec fn convertible_window(
    chunk: ChunkModel,
    start: int,
    width: int,
    enforce_age: bool,
    min_age_ms: u64,
    now_ms: u64,
) -> bool {
    &&& chunk.state == ChunkState::Active || chunk.state == ChunkState::Sealed
    &&& 0 < width
    &&& 0 <= start
    &&& start + width <= chunk.strips.len()
    &&& chunk.strips[start].unit_kb > 0
    &&& chunk.strips[start].capacity > 0
    &&& forall|i: int|
        start <= i < start + width ==> {
            let strip = #[trigger] chunk.strips[i];
            &&& strip.unit_kb == chunk.strips[start].unit_kb
            &&& strip.capacity == chunk.strips[start].capacity
            &&& (strip.strip matches Some(LayoutModel::Mirror { segments }) && segments.len() > 0)
            &&& chunk.state == ChunkState::Sealed || (chunk.closed_strip_sequence is Some
                && strip.strip_sequence <= chunk.closed_strip_sequence->0)
            &&& enforce_age ==> strip.sealed_ts_ms > 0 && (strip.sealed_ts_ms + min_age_ms <= now_ms
                || now_ms == u64::MAX)
        }
    &&& forall|i: int, j: int|
        start <= i < j < start + width && j == i + 1 ==> (#[trigger] chunk.strips[i]).chunk_offset
            + chunk.strips[i].capacity == (#[trigger] chunk.strips[j]).chunk_offset
}

proof fn lemma_offsets_of_run(chunk: ChunkModel, start: int, width: int, k: int)
    requires
        0 <= k < width,
        0 <= start,
        start + width <= chunk.strips.len(),
        forall|i: int|
            start <= i < start + width ==> (#[trigger] chunk.strips[i]).capacity
                == chunk.strips[start].capacity,
        forall|i: int, j: int|
            start <= i < j < start + width && j == i + 1 ==> (
            #[trigger] chunk.strips[i]).chunk_offset + chunk.strips[i].capacity == (
            #[trigger] chunk.strips[j]).chunk_offset,
    ensures
        chunk.strips[start + k].chunk_offset == chunk.strips[start].chunk_offset + k
            * chunk.strips[start].capacity,
    decreases k,
{
    let capacity = chunk.strips[start].capacity as int;
    if k > 0 {
        lemma_offsets_of_run(chunk, start, width, k - 1);
        let before = chunk.strips[start + k - 1];
        assert(before.capacity == capacity);
        assert(before.chunk_offset + before.capacity == chunk.strips[start + k].chunk_offset);
        assert(k * capacity == (k - 1) * capacity + capacity) by (nonlinear_arith);
    } else {
        assert(0 * capacity == 0) by (nonlinear_arith);
    }
}

proof fn lemma_candidate_window(
    chunk: ChunkModel,
    start: int,
    width: int,
    enforce_age: bool,
    min_age_ms: u64,
    now_ms: u64,
)
    requires
        0 < width,
        0 <= start,
        start + width <= chunk.strips.len(),
        forall|i: int|
            0 <= i < chunk.strips.len() ==> (#[trigger] chunk.strips[i]).chunk_offset
                + chunk.strips[i].capacity <= u32::MAX,
    ensures
        is_candidate(
            chunk,
            chunk.strips.subrange(start, start + width),
            enforce_age,
            min_age_ms,
            now_ms,
        ) <==> convertible_window(chunk, start, width, enforce_age, min_age_ms, now_ms),
{
    reveal(convertible_window);
    let strips = chunk.strips.subrange(start, start + width);
    let first = chunk.strips[start];
    assert(strips[0] == first);
    assert(forall|i: int| 0 <= i < width ==> (#[trigger] strips[i]) == chunk.strips[start + i]);
    if is_candidate(chunk, strips, enforce_age, min_age_ms, now_ms) {
        assert forall|i: int| start <= i < start + width implies {
            let strip = #[trigger] chunk.strips[i];
            &&& strip.unit_kb == first.unit_kb
            &&& strip.capacity == first.capacity
            &&& (strip.strip matches Some(LayoutModel::Mirror { segments }) && segments.len() > 0)
            &&& chunk.state == ChunkState::Sealed || (chunk.closed_strip_sequence is Some
                && strip.strip_sequence <= chunk.closed_strip_sequence->0)
            &&& enforce_age ==> strip.sealed_ts_ms > 0 && (strip.sealed_ts_ms + min_age_ms <= now_ms
                || now_ms == u64::MAX)
        } by {
            assert(continues_run(strips, i - start));
            assert(strips[i - start] == chunk.strips[i]);
            if enforce_age {
                assert(aged(strips[i - start], min_age_ms, now_ms));
            }
        }
        assert forall|i: int, j: int|
            start <= i < j < start + width && j == i + 1 implies (
        #[trigger] chunk.strips[i]).chunk_offset + chunk.strips[i].capacity == (
        #[trigger] chunk.strips[j]).chunk_offset by {
            let (a, b) = (i - start, j - start);
            assert(continues_run(strips, a));
            assert(continues_run(strips, b));
            assert(strips[a] == chunk.strips[i]);
            assert(strips[b] == chunk.strips[j]);
            let capacity = first.capacity as int;
            assert(b * capacity == a * capacity + capacity && a * capacity >= 0) by (
            nonlinear_arith)
                requires
                    b == a + 1,
                    a >= 0,
                    capacity >= 0,
            ;
            assert(chunk.strips[j].chunk_offset + capacity <= u32::MAX);
        }
    }
    if convertible_window(chunk, start, width, enforce_age, min_age_ms, now_ms) {
        assert forall|i: int| 0 <= i < strips.len() implies #[trigger] continues_run(strips, i) by {
            lemma_offsets_of_run(chunk, start, width, i);
            assert(chunk.strips[start + i] == strips[i]);
            assert(i * first.capacity >= 0) by (nonlinear_arith)
                requires
                    i >= 0,
            ;
        }
        assert forall|i: int| 0 <= i < strips.len() && enforce_age implies aged(
            #[trigger] strips[i],
            min_age_ms,
            now_ms,
        ) by {
            assert(chunk.strips[start + i] == strips[i]);
        }
        assert forall|i: int|
            0 <= i < strips.len() && chunk.state != ChunkState::Sealed implies (
        #[trigger] strips[i]).strip_sequence <= chunk.closed_strip_sequence->0 by {
            assert(chunk.strips[start + i] == strips[i]);
        }
        if chunk.state != ChunkState::Sealed {
            assert(chunk.closed_strip_sequence is Some);
        }
    }
}

proof fn lemma_window_within(
    chunk: ChunkModel,
    width: int,
    enforce_age: bool,
    min_age_ms: u64,
    now_ms: u64,
)
    ensures
        forall|w: int| #[trigger]
            convertible_window(chunk, w, width, enforce_age, min_age_ms, now_ms) ==> 0 <= w && w
                + width <= chunk.strips.len(),
{
    reveal(convertible_window);
}

/// Where the runs begin that are taken from the chunk's strips, from the first one
/// on.
spec fn windows_from(
    chunk: ChunkModel,
    width: int,
    enforce_age: bool,
    min_age_ms: u64,
    now_ms: u64,
    start: int,
) -> Seq<int>
    decreases chunk.strips.len() - start,
{
    if width <= 0 || start < 0 || start + width > chunk.strips.len() {
        Seq::empty()
    } else if convertible_window(chunk, start, width, enforce_age, min_age_ms, now_ms) {
        seq![start] + windows_from(chunk, width, enforce_age, min_age_ms, now_ms, start + width)
    } else {
        windows_from(chunk, width, enforce_age, min_age_ms, now_ms, start + 1)
    }
}

proof fn lemma_windows_are_groups(
    chunk: ChunkModel,
    width: int,
    enforce_age: bool,
    min_age_ms: u64,
    now_ms: u64,
    start: int,
)
    requires
        0 < width,
        0 <= start,
        forall|i: int|
            0 <= i < chunk.strips.len() ==> (#[trigger] chunk.strips[i]).chunk_offset
                + chunk.strips[i].capacity <= u32::MAX,
    ensures
        group_starts(chunk, width, enforce_age, min_age_ms, now_ms, start) == windows_from(
            chunk,
            width,
            enforce_age,
            min_age_ms,
            now_ms,
            start,
        ),
    decreases chunk.strips.len() - start,
{
    if start + width <= chunk.strips.len() {
        lemma_candidate_window(chunk, start, width, enforce_age, min_age_ms, now_ms);
        lemma_windows_are_groups(chunk, width, enforce_age, min_age_ms, now_ms, start + width);
        lemma_windows_are_groups(chunk, width, enforce_age, min_age_ms, now_ms, start + 1);
    }
}

proof fn lemma_windows(
    chunk: ChunkModel,
    width: int,
    enforce_age: bool,
    min_age_ms: u64,
    now_ms: u64,
    start: int,
)
    requires
        0 < width,
        0 <= start,
    ensures
        ({
            let starts = windows_from(chunk, width, enforce_age, min_age_ms, now_ms, start);
            &&& forall|i: int|
                0 <= i < starts.len() ==> start <= (#[trigger] starts[i]) && convertible_window(
                    chunk,
                    starts[i],
                    width,
                    enforce_age,
                    min_age_ms,
                    now_ms,
                )
            &&& forall|i: int, j: int|
                0 <= i < j < starts.len() ==> (#[trigger] starts[i]) + width <= (
                #[trigger] starts[j])
        }),
    decreases chunk.strips.len() - start,
{
    let starts = windows_from(chunk, width, enforce_age, min_age_ms, now_ms, start);
    if start + width <= chunk.strips.len() {
        if convertible_window(chunk, start, width, enforce_age, min_age_ms, now_ms) {
            lemma_windows(chunk, width, enforce_age, min_age_ms, now_ms, start + width);
            let rest = windows_from(chunk, width, enforce_age, min_age_ms, now_ms, start + width);
            assert(starts =~= seq![start] + rest);
            assert forall|i: int| 0 <= i < starts.len() implies start <= (#[trigger] starts[i])
                && convertible_window(chunk, starts[i], width, enforce_age, min_age_ms, now_ms) by {
                if i > 0 {
                    assert(starts[i] == rest[i - 1]);
                }
            }
            assert forall|i: int, j: int| 0 <= i < j < starts.len() implies (#[trigger] starts[i])
                + width <= (#[trigger] starts[j]) by {
                assert(starts[j] == rest[j - 1]);
                if i > 0 {
                    assert(starts[i] == rest[i - 1]);
                }
            }
        } else {
            lemma_windows(chunk, width, enforce_age, min_age_ms, now_ms, start + 1);
            let rest = windows_from(chunk, width, enforce_age, min_age_ms, now_ms, start + 1);
            assert forall|i: int| 0 <= i < starts.len() implies start <= (#[trigger] starts[i])
                && convertible_window(chunk, starts[i], width, enforce_age, min_age_ms, now_ms) by {
                assert(start + 1 <= rest[i]);
            }
        }
    }
}

proof fn lemma_window_is_met(
    chunk: ChunkModel,
    width: int,
    enforce_age: bool,
    min_age_ms: u64,
    now_ms: u64,
    start: int,
    w: int,
) -> (i: int)
    requires
        0 < width,
        0 <= start <= w,
        w + width <= chunk.strips.len(),
        convertible_window(chunk, w, width, enforce_age, min_age_ms, now_ms),
    ensures
        ({
            let starts = windows_from(chunk, width, enforce_age, min_age_ms, now_ms, start);
            0 <= i < starts.len() && starts[i] < w + width && w < starts[i] + width
        }),
    decreases chunk.strips.len() - start,
{
    if convertible_window(chunk, start, width, enforce_age, min_age_ms, now_ms) {
        if w < start + width {
            0
        } else {
            1 + lemma_window_is_met(
                chunk,
                width,
                enforce_age,
                min_age_ms,
                now_ms,
                start + width,
                w,
            )
        }
    } else {
        lemma_window_is_met(chunk, width, enforce_age, min_age_ms, now_ms, start + 1, w)
    }
}

/// The search for runs to convert is sound and complete. Every group that it gives
/// is a run of closed mirrors of the chunk as it stands, no two groups share a
/// strip, and no run of closed mirrors is left that shares no strip with a group.
pub proof fn law_conversion_search_is_complete(
    chunk: ChunkModel,
    data_num: u32,
    code_num: u32,
    now_ms: u64,
    enforce_age: bool,
    min_age_ms: u64,
)
    requires
        chunk.strips.len() <= u32::MAX,
        forall|i: int|
            0 <= i < chunk.strips.len() ==> (#[trigger] chunk.strips[i]).chunk_offset
                + chunk.strips[i].capacity <= u32::MAX,
    ensures
        groups_of(chunk, data_num, code_num, now_ms, enforce_age, min_age_ms) is Ok <==> data_num > 0
            && code_num > 0 && chunk.id is Some,
        groups_of(chunk, data_num, code_num, now_ms, enforce_age, min_age_ms) matches Ok(groups)
            ==> {
            &&& forall|i: int|
                0 <= i < groups.len() ==> {
                    let payload = (#[trigger] groups[i]).payload;
                    let start = payload.start_index as int;
                    &&& convertible_window(
                        chunk,
                        start,
                        data_num as int,
                        enforce_age,
                        min_age_ms,
                        now_ms,
                    )
                    &&& Some(payload.chunk_id) == chunk.id
                    &&& payload.expected_modify_ts == chunk.modify_ts
                    &&& payload.old_strips == chunk.strips.subrange(start, start + data_num)
                    &&& payload.data_num == data_num
                    &&& payload.code_num == code_num
                    &&& payload.replacement_strip is None
                    &&& payload.phase == MirrorToEcPhase::Discovered
                }
            &&& forall|i: int, j: int|
                0 <= i < j < groups.len() ==> (#[trigger] groups[i]).payload.start_index + data_num
                    <= (#[trigger] groups[j]).payload.start_index
            &&& forall|w: int| #[trigger]
                convertible_window(
                    chunk,
                    w,
                    data_num as int,
                    enforce_age,
                    min_age_ms,
                    now_ms,
                ) ==> exists|i: int|
                    0 <= i < groups.len() && (#[trigger] groups[i]).payload.start_index < w
                        + data_num && w < groups[i].payload.start_index + data_num
        },
{
    if let Ok(groups) = groups_of(chunk, data_num, code_num, now_ms, enforce_age, min_age_ms) {
        let width = data_num as int;
        let starts = group_starts(chunk, width, enforce_age, min_age_ms, now_ms, 0);
        lemma_windows_are_groups(chunk, width, enforce_age, min_age_ms, now_ms, 0);
        lemma_windows(chunk, width, enforce_age, min_age_ms, now_ms, 0);
        lemma_window_within(chunk, width, enforce_age, min_age_ms, now_ms);
        assert forall|i: int| 0 <= i < groups.len() implies (
        #[trigger] groups[i]).payload.start_index == starts[i] by {
            assert(starts[i] + width <= chunk.strips.len());
        }
        assert forall|w: int| #[trigger]
            convertible_window(chunk, w, width, enforce_age, min_age_ms, now_ms) implies exists|
            i: int,
        |
            0 <= i < groups.len() && (#[trigger] groups[i]).payload.start_index < w + data_num && w
                < groups[i].payload.start_index + data_num by {
            let k = lemma_window_is_met(chunk, width, enforce_age, min_age_ms, now_ms, 0, w);
            assert(groups[k].payload.start_index == starts[k]);
        }
    }
}

/// A source is good exactly where the chunk is active or sealed, at the revision
/// that is known, and still has these very strips at their place, all mirrored, and
/// none of them is written any more.
pub proof fn law_source_is_still_there(
    chunk: ChunkModel,
    expected_modify_ts: u64,
    start: int,
    old_strips: Seq<StripModel>,
)
    requires
        0 <= start,
    ensures
        source_valid(chunk, expected_modify_ts, start, old_strips) <==> {
            &&& chunk.state == ChunkState::Active || chunk.state == ChunkState::Sealed
            &&& chunk.modify_ts == expected_modify_ts
            &&& old_strips.len() > 0
            &&& start + old_strips.len() <= chunk.strips.len()
            &&& forall|i: int|
                0 <= i < old_strips.len() ==> {
                    &&& (#[trigger] old_strips[i]) == chunk.strips[start + i]
                    &&& old_strips[i].strip matches Some(LayoutModel::Mirror { .. })
                    &&& chunk.state == ChunkState::Sealed || (chunk.closed_strip_sequence is Some
                        && old_strips[i].strip_sequence <= chunk.closed_strip_sequence->0)
                }
        },
{
    let n = old_strips.len() as int;
    if start + n <= chunk.strips.len() {
        let found = chunk.strips.subrange(start, start + n);
        if source_valid(chunk, expected_modify_ts, start, old_strips) {
            assert forall|i: int| 0 <= i < n implies {
                &&& (#[trigger] old_strips[i]) == chunk.strips[start + i]
                &&& old_strips[i].strip matches Some(LayoutModel::Mirror { .. })
                &&& chunk.state == ChunkState::Sealed || (chunk.closed_strip_sequence is Some
                    && old_strips[i].strip_sequence <= chunk.closed_strip_sequence->0)
            } by {
                assert(found[i] == chunk.strips[start + i]);
                assert(crate::conversion::is_mirror(old_strips[i]));
            }
        }
        if n > 0 && forall|i: int|
            0 <= i < n ==> {
                &&& (#[trigger] old_strips[i]) == chunk.strips[start + i]
                &&& old_strips[i].strip matches Some(LayoutModel::Mirror { .. })
                &&& chunk.state == ChunkState::Sealed || (chunk.closed_strip_sequence is Some
                    && old_strips[i].strip_sequence <= chunk.closed_strip_sequence->0)
            } {
            assert(old_strips[0] == chunk.strips[start + 0]);
            assert(found =~= old_strips);
            assert(crate::conversion::all_mirrors(old_strips));
            assert(crate::conversion::all_closed(chunk, old_strips));
        }
    }
}

proof fn lemma_window_is_first(strips: Seq<StripModel>, wanted: Seq<StripModel>, from: int)
    requires
        0 <= from,
    ensures
        match window_from(strips, wanted, from) {
            Some(at) => {
                &&& from <= at
                &&& at + wanted.len() <= strips.len()
                &&& strips.subrange(at, at + wanted.len()) == wanted
                &&& forall|k: int|
                    from <= k < at ==> #[trigger] strips.subrange(k, k + wanted.len()) != wanted
            },
            None => forall|k: int|
                from <= k && k + wanted.len() <= strips.len() ==> #[trigger] strips.subrange(
                    k,
                    k + wanted.len(),
                ) != wanted,
        },
    decreases strips.len() + 1 - from,
{
    if from + wanted.len() <= strips.len() && strips.subrange(from, from + wanted.len()) != wanted {
        lemma_window_is_first(strips, wanted, from + 1);
    }
}

/// A source that moved is found at the first place where the chunk has these very
/// strips, and only where it may still be converted there.
pub proof fn law_moved_source_is_found(chunk: ChunkModel, old_strips: Seq<StripModel>)
    ensures
        source_now(chunk, old_strips) matches Some(at) ==> {
            &&& source_valid(chunk, chunk.modify_ts, at as int, old_strips)
            &&& forall|k: int|
                0 <= k < at ==> #[trigger] chunk.strips.subrange(k, k + old_strips.len())
                    != old_strips
        },
        source_now(chunk, old_strips) is None && chunk.strips.len() <= u32::MAX ==> forall|k: int|
            0 <= k ==> !(#[trigger] source_valid(chunk, chunk.modify_ts, k, old_strips)),
{
    lemma_window_is_first(chunk.strips, old_strips, 0);
    if source_now(chunk, old_strips) is None && chunk.strips.len() <= u32::MAX {
        assert forall|k: int| 0 <= k implies !(#[trigger] source_valid(
            chunk,
            chunk.modify_ts,
            k,
            old_strips,
        )) by {
            if source_valid(chunk, chunk.modify_ts, k, old_strips) {
                assert(chunk.strips.subrange(k, k + old_strips.len()) == old_strips);
            }
        }
    }
}

/// A conversion is prepared only of a source that is still there. Without a stored
/// task it begins with exactly what was requested. With one, that task must be for
/// the same request, and it must be completed, or run by this client: its
/// replacement is the answer where it has one, else one is to be allocated.
pub proof fn law_prepare_answers_the_request(
    chunk: ChunkModel,
    request: RequestModel,
    client_owner: u64,
    stored: Option<StoredModel>,
)
    ensures
        prepare_step(chunk, request, client_owner, stored) is Ok ==> source_valid(
            chunk,
            request.expected_modify_ts,
            request.start_index as int,
            request.old_strips,
        ),
        prepare_step(chunk, request, client_owner, None) is Ok <==> source_valid(
            chunk,
            request.expected_modify_ts,
            request.start_index as int,
            request.old_strips,
        ),
        prepare_step(chunk, request, client_owner, stored) matches Ok(PrepareModel::Create {
            payload,
            ..
        }) ==> stored is None && payload == (ConversionModel {
            chunk_id: request.chunk_id,
            expected_modify_ts: request.expected_modify_ts,
            start_index: request.start_index,
            old_strips: request.old_strips,
            data_num: request.data_num,
            code_num: request.code_num,
            replacement_strip: None,
            phase: MirrorToEcPhase::Discovered,
        }),
        stored is Some && prepare_step(chunk, request, client_owner, stored) is Ok ==> {
            let task = stored->0.task;
            &&& stored->0.payload matches Ok(payload)
            &&& payload.chunk_id == request.chunk_id
            &&& payload.expected_modify_ts == request.expected_modify_ts
            &&& payload.start_index == request.start_index
            &&& payload.old_strips == request.old_strips
            &&& payload.data_num == request.data_num
            &&& payload.code_num == request.code_num
            &&& task.state == ChunkTaskState::Completed || (task.state == ChunkTaskState::Running
                && task.claim_owner == client_owner)
            &&& match prepare_step(chunk, request, client_owner, stored)->Ok_0 {
                PrepareModel::Ready { replacement_strip, .. } => payload.replacement_strip == Some(
                    replacement_strip,
                ),
                PrepareModel::Allocate { payload: next, .. } => next == payload
                    && payload.replacement_strip is None && task.state == ChunkTaskState::Running,
                PrepareModel::Create { .. } => false,
            }
        },
{
}

/// A conversion is completed once: a completed task answers, a task that the
/// client runs publishes its erasure-coded replacement with the parity written and
/// otherwise as it was allocated, and anyone else is refused.
pub proof fn law_completion_publishes_the_replacement(
    stored: Option<StoredModel>,
    client_owner: u64,
)
    ensures
        (complete_step(stored, client_owner) matches Ok(CompleteModel::Answer)) <==> stored is Some
            && stored->0.task.state == ChunkTaskState::Completed,
        complete_step(stored, client_owner) matches Ok(CompleteModel::Publish {
            payload: next,
            replacement,
        }) ==> {
            &&& stored is Some
            &&& stored->0.task.state == ChunkTaskState::Running
            &&& stored->0.task.claim_owner == client_owner
            &&& stored->0.payload matches Ok(payload)
            &&& payload.replacement_strip matches Some(strip)
            &&& strip.strip matches Some(LayoutModel::Ec { data_num, code_num, segments, .. })
            &&& replacement == StripModel {
                strip: Some(
                    LayoutModel::Ec { data_num, code_num, ec_state: EcState::Parity, segments },
                ),
                ..strip
            }
            &&& next == ConversionModel {
                replacement_strip: Some(replacement),
                phase: MirrorToEcPhase::Published,
                ..payload
            }
        },
        stored is Some && stored->0.task.state == ChunkTaskState::Running && stored->0.task.claim_owner
            == client_owner && (stored->0.payload matches Ok(payload) && (
        payload.replacement_strip matches Some(strip) && (strip.strip matches Some(
            LayoutModel::Ec { .. },
        )))) ==> complete_step(stored, client_owner) is Ok,
{
}

/// A new checkpoint, an allocated replacement and the end of a conversion change
/// only what they are about, and each stored state counts one revision.
pub proof fn law_conversion_progress_is_recorded(
    task: TaskModel,
    bytes: Seq<u8>,
    now_ms: u64,
    payload: ConversionModel,
    replacement: StripModel,
)
    ensures
        with_replacement(payload, replacement) == (ConversionModel {
            replacement_strip: Some(replacement),
            phase: MirrorToEcPhase::Allocated,
            ..payload
        }),
        ({
            let next = with_checkpoint(task, bytes, now_ms);
            &&& task.revision < u64::MAX ==> next.revision == task.revision + 1
            &&& next.payload == bytes
            &&& next.updated_at_ms == now_ms
            &&& next == TaskModel {
                revision: next.revision,
                payload: next.payload,
                updated_at_ms: next.updated_at_ms,
                ..task
            }
        }),
        ({
            let next = completed_task(task, bytes, now_ms);
            &&& task.revision < u64::MAX ==> next.revision == task.revision + 1
            &&& next.payload == bytes
            &&& next.updated_at_ms == now_ms
            &&& next.state == ChunkTaskState::Completed
            &&& next.claim_owner == 0 && next.claim_deadline_ms == 0
            &&& next == TaskModel {
                revision: next.revision,
                payload: next.payload,
                updated_at_ms: next.updated_at_ms,
                state: next.state,
                claim_owner: 0,
                claim_deadline_ms: 0,
                ..task
            }
        }),
{
}

/// A conversion that a client runs is claimed by it from now on for its lease, and
/// before all background work; one in the background waits unclaimed. Both are of
/// the chunk and the revision that they were found at.
pub proof fn law_conversion_tasks_are_claimed(
    task_id: ChunkId,
    operation_id: ChunkId,
    payload: ConversionModel,
    bytes: Seq<u8>,
    client_owner: u64,
    lease_ms: u64,
    now_ms: u64,
    versions: TaskVersions,
)
    requires
        now_ms + lease_ms < u64::MAX,
        total_capacity(payload.old_strips) * 1024 <= u64::MAX,
    ensures
        ({
            let own = client_task(
                task_id,
                operation_id,
                payload,
                bytes,
                client_owner,
                lease_ms,
                now_ms,
                versions,
            );
            let background = background_task(
                task_id,
                operation_id,
                payload,
                bytes,
                now_ms,
                versions,
            );
            &&& own.state == ChunkTaskState::Running && background.state == ChunkTaskState::Pending
            &&& own.claim_owner == client_owner && background.claim_owner == 0
            &&& own.claim_generation == 1 && background.claim_generation == 0
            &&& now_ms < own.claim_deadline_ms
            &&& lease_ms > 0 ==> own.claim_deadline_ms == now_ms + lease_ms
            &&& background.claim_deadline_ms == 0
            &&& own.attempt == 1 && background.attempt == 0
            &&& background.priority < own.priority
            &&& own.partition_id == payload.chunk_id
            &&& own.task_id == task_id && own.operation_id == operation_id
            &&& own.source_revision == payload.expected_modify_ts
            &&& own.kind == TaskKind::MirrorToEc
            &&& own.payload == bytes
            &&& own.revision == 1
            &&& own.created_at_ms == now_ms && own.updated_at_ms == now_ms
            &&& own.eligible_at_ms == 0
            &&& own.estimated_queue_bytes == total_capacity(payload.old_strips) * 1024
            &&& own.schema_version == versions.schema && own.kind_version == versions.payload
            &&& background == TaskModel {
                state: background.state,
                claim_owner: background.claim_owner,
                claim_generation: background.claim_generation,
                claim_deadline_ms: background.claim_deadline_ms,
                attempt: background.attempt,
                priority: background.priority,
                ..own
            }
        }),
{
    crate::types::lemma_capacity_nonnegative(payload.old_strips);
}

/// A conversion reads every source once, writes every shard of the size of the
/// first source, and retires all copies of the sources.
pub proof fn law_conversion_io_is_counted(payload: ConversionModel)
    requires
        payload.old_strips.len() > 0,
        total_capacity(payload.old_strips) * 1024 <= u64::MAX,
        payload.data_num + payload.code_num <= u32::MAX,
        payload.old_strips[0].capacity * 1024 * (payload.data_num + payload.code_num) <= u64::MAX,
        payload.old_strips.fold_left(
            0int,
            |sum: int, strip: StripModel|
                match strip.strip {
                    Some(LayoutModel::Mirror { segments }) => sum + segments.len(),
                    _ => sum,
                },
        ) <= u64::MAX,
    ensures
        io_of(payload).read_bytes == total_capacity(payload.old_strips) * 1024,
        io_of(payload).write_bytes == payload.old_strips[0].capacity * 1024 * (payload.data_num
            + payload.code_num),
        io_of(payload).retired_segments == payload.old_strips.fold_left(
            0int,
            |sum: int, strip: StripModel|
                match strip.strip {
                    Some(LayoutModel::Mirror { segments }) => sum + segments.len(),
                    _ => sum,
                },
        ),
{
    crate::types::lemma_capacity_nonnegative(payload.old_strips);
    lemma_copies(payload.old_strips);
    let size = payload.old_strips[0].capacity * 1024;
    assert(size * (payload.data_num + payload.code_num) >= 0) by (nonlinear_arith)
        requires
            size >= 0,
    ;
}

proof fn lemma_copies(strips: Seq<StripModel>)
    ensures
        crate::conversion::copies_of(strips) == strips.fold_left(
            0int,
            |sum: int, strip: StripModel|
                match strip.strip {
                    Some(LayoutModel::Mirror { segments }) => sum + segments.len(),
                    _ => sum,
                },
        ),
        crate::conversion::copies_of(strips) >= 0,
    decreases strips.len(),
{
    reveal(Seq::fold_left);
    if strips.len() > 0 {
        lemma_copies(strips.drop_last());
    }
}

/// Mirrored strips are counted one by one.
pub proof fn law_mirrored_strips_are_counted(strips: Seq<StripModel>)
    ensures
        mirrored(strips) == strips.filter(
            |strip: StripModel| strip.strip matches Some(LayoutModel::Mirror { .. }),
        ).len(),
    decreases strips.len(),
{
    reveal(Seq::filter);
    if strips.len() > 0 {
        law_mirrored_strips_are_counted(strips.drop_last());
    }
}

/// A reservation is recovered exactly where its lease is over and it names its
/// chunk and itself; the scan for them goes on behind the last one of a page.
pub proof fn law_expired_reservations_are_recovered(
    group: GroupModel,
    now_ms: u64,
    current: Option<(ChunkId, ChunkId)>,
    groups: Seq<StripReservationGroup>,
)
    ensures
        due_recovery(group, now_ms) is Some <==> now_ms >= group.lease_deadline_ms
            && group.chunk_id is Some && group.group_id is Some,
        due_recovery(group, now_ms) matches Some(ids) ==> Some(ids.0) == group.chunk_id && Some(ids.1)
            == group.group_id,
        groups.len() == 0 ==> reservation_cursor(current, groups) is None,
        groups.len() > 0 && groups.last().chunk_id is Some && groups.last().group_id is Some
            ==> reservation_cursor(current, groups) == Some(
            (groups.last().chunk_id->0, groups.last().group_id->0),
        ),
{
}

} // verus!
