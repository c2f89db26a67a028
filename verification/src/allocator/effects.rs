//! What an allocation asks for, keeps and gives back, told on blocks and segments.
use vstd::prelude::*;
use crate::allocator::{AllocErrorModel, StripAllocType};
use crate::allocator::pool::{
    broadcast_segments, groups_of, members, owner_of, owners_of, routed_requests, segment_group,
    with_disks,
};
use crate::allocator::rounds::{
    first_fault, group_blocks, group_entries, handed_out, last_fault, ordered_error, plan_requests,
    request_groups, round_from, round_outcome, segment_for, MAX_ALLOC_RETRIES, RoundModel,
};
use crate::allocator::strips::{
    allocated_strips, assembled_strip, conversion_copies, first_failure, unusable_groups,
};
use crate::selector::PlacementEntry;
use crate::topology::DiskGroupEntry;
use crate::types::{ChunkId, DiskId, EcState, LayoutModel, Segment, StripModel, StripType};

verus! {

proof fn lemma_groups_of_entries(entries: Seq<PlacementEntry>)
    ensures
        request_groups(entries).no_duplicates(),
        forall|dg_id: u64| #[trigger]
            request_groups(entries).contains(dg_id) <==> exists|i: int|
                0 <= i < entries.len() && (#[trigger] entries[i]).disk_group_id == dg_id,
    decreases entries.len(),
{
    if entries.len() > 0 {
        let front = entries.drop_last();
        let before = request_groups(front);
        let all = request_groups(entries);
        let last = entries.last().disk_group_id;
        lemma_groups_of_entries(front);
        assert(entries[entries.len() - 1] == entries.last());
        assert forall|dg_id: u64| #[trigger] all.contains(dg_id) <==> exists|i: int|
            0 <= i < entries.len() && (#[trigger] entries[i]).disk_group_id == dg_id by {
            if all.contains(dg_id) {
                let k = choose|k: int| 0 <= k < all.len() && all[k] == dg_id;
                if k < before.len() {
                    assert(before[k] == dg_id);
                    assert(before.contains(dg_id));
                    let i = choose|i: int|
                        0 <= i < front.len() && (#[trigger] front[i]).disk_group_id == dg_id;
                    assert(entries[i].disk_group_id == dg_id);
                } else {
                    assert(entries[entries.len() - 1].disk_group_id == dg_id);
                }
            }
            if exists|i: int|
                0 <= i < entries.len() && (#[trigger] entries[i]).disk_group_id == dg_id {
                let i = choose|i: int|
                    0 <= i < entries.len() && (#[trigger] entries[i]).disk_group_id == dg_id;
                if i < front.len() {
                    assert(front[i].disk_group_id == dg_id);
                    assert(before.contains(dg_id));
                    let k = choose|k: int| 0 <= k < before.len() && before[k] == dg_id;
                    assert(all[k] == dg_id);
                } else if before.contains(dg_id) {
                    let k = choose|k: int| 0 <= k < before.len() && before[k] == dg_id;
                    assert(all[k] == dg_id);
                } else {
                    assert(all[all.len() - 1] == dg_id);
                }
            }
        }
    }
}

proof fn lemma_group_blocks(entries: Seq<PlacementEntry>, dg_id: u64)
    ensures
        group_blocks(entries, dg_id) == entries.filter(
            |entry: PlacementEntry| entry.disk_group_id == dg_id,
        ).fold_left(0int, |sum: int, entry: PlacementEntry| sum + entry.block_count),
        group_entries(entries, dg_id) == entries.filter(
            |entry: PlacementEntry| entry.disk_group_id == dg_id,
        ).len(),
        group_blocks(entries, dg_id) >= 0,
    decreases entries.len(),
{
    reveal(Seq::filter);
    reveal(Seq::fold_left);
    if entries.len() > 0 {
        let on_group = |entry: PlacementEntry| entry.disk_group_id == dg_id;
        lemma_group_blocks(entries.drop_last(), dg_id);
        let front = entries.drop_last().filter(on_group);
        assert(front.push(entries.last()).drop_last() =~= front);
    }
}

/// Every disk-group of a plan is asked once, for all the blocks that the plan puts
/// there, and no other disk-group is asked.
pub proof fn law_plan_is_asked_for(entries: Seq<PlacementEntry>)
    ensures
        ({
            let requests = plan_requests(entries);
            &&& forall|i: int, j: int|
                0 <= i < j < requests.len() ==> (#[trigger] requests[i]).0 != (
                #[trigger] requests[j]).0
            &&& forall|i: int|
                0 <= i < requests.len() ==> {
                    let blocks = entries.filter(
                        |entry: PlacementEntry| entry.disk_group_id == (#[trigger] requests[i]).0,
                    ).fold_left(0int, |sum: int, entry: PlacementEntry| sum + entry.block_count);
                    blocks <= u32::MAX ==> requests[i].1 == blocks
                }
            &&& forall|k: int|
                0 <= k < entries.len() ==> exists|i: int|
                    0 <= i < requests.len() && (#[trigger] requests[i]).0 == (
                    #[trigger] entries[k]).disk_group_id
            &&& forall|i: int|
                0 <= i < requests.len() ==> exists|k: int|
                    0 <= k < entries.len() && (#[trigger] entries[k]).disk_group_id == (
                    #[trigger] requests[i]).0
        }),
{
    let requests = plan_requests(entries);
    let groups = request_groups(entries);
    lemma_groups_of_entries(entries);
    assert forall|i: int| 0 <= i < requests.len() implies {
        let blocks = entries.filter(
            |entry: PlacementEntry| entry.disk_group_id == (#[trigger] requests[i]).0,
        ).fold_left(0int, |sum: int, entry: PlacementEntry| sum + entry.block_count);
        blocks <= u32::MAX ==> requests[i].1 == blocks
    } by {
        lemma_group_blocks(entries, requests[i].0);
    }
    assert forall|k: int| 0 <= k < entries.len() implies exists|i: int|
        0 <= i < requests.len() && (#[trigger] requests[i]).0 == (
        #[trigger] entries[k]).disk_group_id by {
        assert(groups.contains(entries[k].disk_group_id));
        let i = choose|i: int| 0 <= i < groups.len() && groups[i] == entries[k].disk_group_id;
        assert(requests[i].0 == entries[k].disk_group_id);
    }
    assert forall|i: int| 0 <= i < requests.len() implies exists|k: int|
        0 <= k < entries.len() && (#[trigger] entries[k]).disk_group_id == (
        #[trigger] requests[i]).0 by {
        assert(groups.contains(groups[i]));
    }
}

/// The segment is one that was asked for: for this chunk, of this size, on a disk of
/// the disk-group.
pub open spec fn as_asked(
    owners: Map<(u64, u64), u64>,
    segment: Segment,
    dg_id: u64,
    owner_chunk: ChunkId,
    unit_count: u32,
) -> bool {
    &&& segment.owner_chunk == Some(owner_chunk)
    &&& segment.unit_count == unit_count
    &&& segment.disk_id is Some
    &&& owners.dom().contains((segment.disk_id->0.high, segment.disk_id->0.low))
    &&& owners[(segment.disk_id->0.high, segment.disk_id->0.low)] == dg_id
}

proof fn lemma_first_fault(
    owners: Map<(u64, u64), u64>,
    segments: Seq<Segment>,
    from: int,
    dg_id: u64,
    owner_chunk: ChunkId,
    unit_count: u32,
)
    requires
        0 <= from,
    ensures
        first_fault(owners, segments, from, dg_id, owner_chunk, unit_count) is None <==> forall|
            k: int,
        |
            from <= k < segments.len() ==> as_asked(
                owners,
                #[trigger] segments[k],
                dg_id,
                owner_chunk,
                unit_count,
            ),
    decreases segments.len() - from,
{
    if from < segments.len() {
        lemma_first_fault(owners, segments, from + 1, dg_id, owner_chunk, unit_count);
    }
}

proof fn lemma_last_fault(
    owners: Map<(u64, u64), u64>,
    segments: Seq<Segment>,
    upto: int,
    dg_id: u64,
    owner_chunk: ChunkId,
    unit_count: u32,
)
    requires
        0 <= upto <= segments.len(),
    ensures
        last_fault(owners, segments, upto, dg_id, owner_chunk, unit_count) is None <==> forall|
            k: int,
        |
            0 <= k < upto ==> as_asked(
                owners,
                #[trigger] segments[k],
                dg_id,
                owner_chunk,
                unit_count,
            ),
    decreases upto,
{
    if upto > 0 {
        lemma_last_fault(owners, segments, upto - 1, dg_id, owner_chunk, unit_count);
    }
}

/// The response is what was asked for, or part of it.
pub open spec fn good_response(
    owners: Map<(u64, u64), u64>,
    request: (u64, u32),
    response: Result<Seq<Segment>, Seq<char>>,
    owner_chunk: ChunkId,
    unit_count: u32,
) -> bool {
    &&& response is Ok
    &&& response->Ok_0.len() <= request.1
    &&& forall|k: int|
        0 <= k < response->Ok_0.len() ==> as_asked(
            owners,
            #[trigger] response->Ok_0[k],
            request.0,
            owner_chunk,
            unit_count,
        )
}

/// What was asked for and did not come, in order.
pub open spec fn still_missing(
    pending: Seq<(u64, u32)>,
    responses: Seq<Result<Seq<Segment>, Seq<char>>>,
) -> Seq<(u64, u32)> {
    Seq::new(
        pending.len(),
        |i: int| (pending[i].0, (pending[i].1 - responses[i]->Ok_0.len()) as u32),
    ).filter(|rest: (u64, u32)| rest.1 > 0)
}

proof fn lemma_handed_out_step(responses: Seq<Result<Seq<Segment>, Seq<char>>>, i: int)
    requires
        0 <= i < responses.len(),
    ensures
        handed_out(responses.take(i + 1)) == (match responses[i] {
            Ok(got) => handed_out(responses.take(i)) + got,
            Err(_) => handed_out(responses.take(i)),
        }),
{
    assert(responses.take(i + 1).drop_last() =~= responses.take(i));
    assert(responses.take(i + 1).last() == responses[i]);
}

proof fn lemma_round(
    owners: Map<(u64, u64), u64>,
    pending: Seq<(u64, u32)>,
    responses: Seq<Result<Seq<Segment>, Seq<char>>>,
    i: int,
    owner_chunk: ChunkId,
    unit_count: u32,
    given: Seq<Segment>,
    segments: Seq<Segment>,
    missing: Seq<(u64, u32)>,
    failure: Option<AllocErrorModel>,
    first: Seq<Segment>,
)
    requires
        0 <= i <= pending.len(),
        responses.len() == pending.len(),
        forall|k: int|
            0 <= k < responses.len() ==> ((#[trigger] responses[k]) matches Ok(got) ==> got.len()
                <= u32::MAX),
        segments == first + handed_out(responses.take(i)),
        missing == still_missing(pending.take(i), responses.take(i)),
        failure is None <==> forall|k: int|
            0 <= k < i ==> good_response(
                owners,
                pending[k],
                #[trigger] responses[k],
                owner_chunk,
                unit_count,
            ),
    ensures
        match round_from(
            owners,
            pending,
            responses,
            i,
            owner_chunk,
            unit_count,
            given,
            segments,
            missing,
            failure,
        ) {
            RoundModel::Go { segments: all, pending: rest } => {
                &&& all == first + handed_out(responses)
                &&& rest == still_missing(pending, responses)
                &&& forall|k: int|
                    0 <= k < pending.len() ==> good_response(
                        owners,
                        pending[k],
                        #[trigger] responses[k],
                        owner_chunk,
                        unit_count,
                    )
            },
            RoundModel::Fail { free, .. } => {
                &&& free == given
                &&& !(forall|k: int|
                    0 <= k < pending.len() ==> good_response(
                        owners,
                        pending[k],
                        #[trigger] responses[k],
                        owner_chunk,
                        unit_count,
                    ))
            },
        },
    decreases pending.len() - i,
{
    if i >= pending.len() {
        assert(responses.take(i) =~= responses);
        assert(pending.take(i) =~= pending);
    } else {
        let dg_id = pending[i].0;
        let requested = pending[i].1;
        lemma_handed_out_step(responses, i);
        match responses[i] {
            Ok(got) => {
                lemma_first_fault(owners, got, 0, dg_id, owner_chunk, unit_count);
                let count = crate::arith::clip_u32(got.len() as int);
                assert(count == got.len());
                if count <= requested && first_fault(
                    owners,
                    got,
                    0,
                    dg_id,
                    owner_chunk,
                    unit_count,
                ) is None {
                    assert(good_response(
                        owners,
                        pending[i],
                        responses[i],
                        owner_chunk,
                        unit_count,
                    ));
                    let more = if count < requested {
                        missing.push((dg_id, (requested - count) as u32))
                    } else {
                        missing
                    };
                    assert(more == still_missing(pending.take(i + 1), responses.take(i + 1))) by {
                        lemma_missing_step(pending, responses, i);
                    }
                    assert(segments + got =~= first + handed_out(responses.take(i + 1)));
                    lemma_round(
                        owners,
                        pending,
                        responses,
                        i + 1,
                        owner_chunk,
                        unit_count,
                        given,
                        segments + got,
                        more,
                        failure,
                        first,
                    );
                } else {
                    assert(!good_response(
                        owners,
                        pending[i],
                        responses[i],
                        owner_chunk,
                        unit_count,
                    ));
                }
            },
            Err(error) => {
                assert(!good_response(
                    owners,
                    pending[i],
                    responses[i],
                    owner_chunk,
                    unit_count,
                ));
                let told = match failure {
                    Some(known) => known,
                    None => AllocErrorModel::AllocateFailed { dg_id, error },
                };
                crate::allocator::rounds::law_failed_round_fails(
                    owners,
                    pending,
                    responses,
                    i + 1,
                    owner_chunk,
                    unit_count,
                    given,
                    segments,
                    missing,
                    told,
                );
            },
        }
    }
}

proof fn lemma_missing_step(
    pending: Seq<(u64, u32)>,
    responses: Seq<Result<Seq<Segment>, Seq<char>>>,
    i: int,
)
    requires
        0 <= i < pending.len(),
        responses.len() == pending.len(),
        responses[i] is Ok,
        responses[i]->Ok_0.len() <= pending[i].1,
    ensures
        still_missing(pending.take(i + 1), responses.take(i + 1)) == (if responses[i]->Ok_0.len()
            < pending[i].1 {
            still_missing(pending.take(i), responses.take(i)).push(
                (pending[i].0, (pending[i].1 - responses[i]->Ok_0.len()) as u32),
            )
        } else {
            still_missing(pending.take(i), responses.take(i))
        }),
{
    reveal(Seq::filter);
    let left = |p: Seq<(u64, u32)>, r: Seq<Result<Seq<Segment>, Seq<char>>>|
        Seq::new(p.len(), |k: int| (p[k].0, (p[k].1 - r[k]->Ok_0.len()) as u32));
    let short = left(pending.take(i), responses.take(i));
    let long = left(pending.take(i + 1), responses.take(i + 1));
    assert(long.drop_last() =~= short);
    assert(long.last() == (pending[i].0, (pending[i].1 - responses[i]->Ok_0.len()) as u32));
}

/// A round keeps exactly what was handed out, where every disk-group gave no more
/// than was asked for and every segment is one of this chunk, of the right size and on
/// the right disk-group. It then asks again for exactly what did not come. Otherwise,
/// or where the last attempt leaves something missing, everything that was handed out
/// in this and the earlier rounds is given back.
pub proof fn law_rounds_keep_or_give_back_all(
    owners: Map<(u64, u64), u64>,
    entries: Seq<PlacementEntry>,
    attempt: usize,
    segments: Seq<Segment>,
    pending: Seq<(u64, u32)>,
    responses: Seq<Result<Seq<Segment>, Seq<char>>>,
    owner_chunk: ChunkId,
    unit_count: u32,
)
    requires
        responses.len() == pending.len(),
        forall|k: int|
            0 <= k < responses.len() ==> ((#[trigger] responses[k]) matches Ok(got) ==> got.len()
                <= u32::MAX),
    ensures
        ({
            let all_good = forall|k: int|
                0 <= k < pending.len() ==> good_response(
                    owners,
                    pending[k],
                    #[trigger] responses[k],
                    owner_chunk,
                    unit_count,
                );
            let rest = still_missing(pending, responses);
            match round_outcome(
                owners,
                entries,
                attempt,
                segments,
                pending,
                responses,
                owner_chunk,
                unit_count,
            ) {
                RoundModel::Go { segments: all, pending: next } => {
                    &&& all_good
                    &&& attempt < MAX_ALLOC_RETRIES || rest.len() == 0
                    &&& all == segments + handed_out(responses)
                    &&& next == rest
                },
                RoundModel::Fail { free, .. } => {
                    &&& !all_good || (attempt >= MAX_ALLOC_RETRIES && rest.len() > 0)
                    &&& free == segments + handed_out(responses)
                },
            }
        }),
        MAX_ALLOC_RETRIES == 3,
{
    assert(responses.take(0) =~= Seq::<Result<Seq<Segment>, Seq<char>>>::empty());
    assert(segments + handed_out(responses.take(0)) =~= segments);
    assert(still_missing(pending.take(0), responses.take(0)) =~= Seq::<(u64, u32)>::empty()) by {
        reveal(Seq::filter);
    }
    lemma_round(
        owners,
        pending,
        responses,
        0,
        owner_chunk,
        unit_count,
        segments + handed_out(responses),
        segments,
        Seq::empty(),
        None,
        segments,
    );
}

/// What was handed out is everything that the disk-groups gave, in order.
pub proof fn law_handed_out_is_all_given(responses: Seq<Result<Seq<Segment>, Seq<char>>>)
    ensures
        handed_out(responses) == responses.fold_left(
            Seq::<Segment>::empty(),
            |before: Seq<Segment>, response: Result<Seq<Segment>, Seq<char>>|
                match response {
                    Ok(got) => before + got,
                    Err(_) => before,
                },
        ),
    decreases responses.len(),
{
    reveal(Seq::fold_left);
    if responses.len() > 0 {
        law_handed_out_is_all_given(responses.drop_last());
    }
}

proof fn lemma_ordered(
    owners: Map<(u64, u64), u64>,
    entries: Seq<PlacementEntry>,
    responses: Seq<Result<Seq<Segment>, Seq<char>>>,
    n: int,
    owner_chunk: ChunkId,
    unit_count: u32,
)
    requires
        0 <= n <= responses.len(),
    ensures
        ordered_error(owners, entries, responses, n, owner_chunk, unit_count) is None ==> forall|
            k: int,
        |
            0 <= k < n ==> (#[trigger] responses[k]) is Ok && responses[k]->Ok_0.len()
                == group_entries(entries, request_groups(entries)[k]) && forall|j: int|
                0 <= j < responses[k]->Ok_0.len() ==> as_asked(
                    owners,
                    #[trigger] responses[k]->Ok_0[j],
                    request_groups(entries)[k],
                    owner_chunk,
                    unit_count,
                ),
    decreases n,
{
    if n > 0 {
        lemma_ordered(owners, entries, responses, n - 1, owner_chunk, unit_count);
        if let Ok(got) = responses[n - 1] {
            lemma_last_fault(
                owners,
                got,
                got.len() as int,
                request_groups(entries)[n - 1],
                owner_chunk,
                unit_count,
            );
        }
    }
}

proof fn lemma_entries_before(entries: Seq<PlacementEntry>, i: int, dg_id: u64)
    requires
        0 <= i < entries.len(),
        entries[i].disk_group_id == dg_id,
    ensures
        group_entries(entries.take(i), dg_id) < group_entries(entries, dg_id),
    decreases entries.len(),
{
    let front = entries.drop_last();
    if i == entries.len() - 1 {
        assert(entries.take(i) =~= front);
    } else {
        assert(front.take(i) =~= entries.take(i));
        lemma_entries_before(front, i, dg_id);
    }
}

/// An allocation in the order of the plan gives every entry a segment of its own
/// disk-group, for this chunk and of the right size.
pub proof fn law_ordered_segments_stand_where_planned(
    owners: Map<(u64, u64), u64>,
    entries: Seq<PlacementEntry>,
    responses: Seq<Result<Seq<Segment>, Seq<char>>>,
    owner_chunk: ChunkId,
    unit_count: u32,
    i: int,
)
    requires
        responses.len() == request_groups(entries).len(),
        ordered_error(
            owners,
            entries,
            responses,
            responses.len() as int,
            owner_chunk,
            unit_count,
        ) is None,
        0 <= i < entries.len(),
    ensures
        as_asked(
            owners,
            segment_for(entries, responses, i),
            entries[i].disk_group_id,
            owner_chunk,
            unit_count,
        ),
        handed_out_by(responses, segment_for(entries, responses, i)),
{
    let dg_id = entries[i].disk_group_id;
    let groups = request_groups(entries);
    lemma_groups_of_entries(entries);
    lemma_ordered(owners, entries, responses, responses.len() as int, owner_chunk, unit_count);
    lemma_entries_before(entries, i, dg_id);
    assert(groups.contains(dg_id));
    let k = groups.index_of(dg_id);
    assert(0 <= k < groups.len() && groups[k] == dg_id);
    let j = group_entries(entries.take(i), dg_id) as int;
    assert(responses[k] is Ok);
    assert(responses[k]->Ok_0[j] == segment_for(entries, responses, i));
    assert(responses[k]->Ok_0.contains(segment_for(entries, responses, i)));
}

/// Some disk-group gave the segment.
pub open spec fn handed_out_by(
    responses: Seq<Result<Seq<Segment>, Seq<char>>>,
    segment: Segment,
) -> bool {
    exists|k: int|
        0 <= k < responses.len() && (#[trigger] responses[k]) is Ok
            && responses[k]->Ok_0.contains(segment)
}

/// A new strip holds the segments that were allocated for it, nothing of it is
/// marked, closed or sealed, and its capacity is what one copy holds, or all data
/// shards together.
pub proof fn law_assembled_strip_holds_its_segments(
    segments: Seq<Segment>,
    strip_type: StripAllocType,
    strip_sequence: u32,
    unit_count: u32,
    unit_kb: u32,
    now_ms: u64,
)
    ensures
        ({
            let strip = assembled_strip(
                segments,
                strip_type,
                strip_sequence,
                unit_count,
                unit_kb,
                now_ms,
            );
            &&& strip.strip_sequence == strip_sequence
            &&& strip.unit_kb == unit_kb
            &&& strip.create_ts_ms == now_ms
            &&& strip.sealed_ts_ms == 0 && strip.sealed_length == 0
            &&& strip.unavailable_segments.len() == 0 && strip.usage_bitmap.len() == 0
            &&& !strip.placement_repair_required
            &&& match strip_type {
                StripAllocType::Mirror { .. } => {
                    &&& strip.strip_type == StripType::Mirror
                    &&& strip.strip == Some(LayoutModel::Mirror { segments })
                    &&& unit_count * unit_kb <= u32::MAX ==> strip.capacity == unit_count * unit_kb
                },
                StripAllocType::Ec { data_num, code_num } => {
                    &&& strip.strip_type == StripType::Ec
                    &&& data_num <= u32::MAX && code_num <= u32::MAX ==> strip.strip == Some(
                        LayoutModel::Ec {
                            data_num: data_num as u32,
                            code_num: code_num as u32,
                            ec_state: EcState::NoParity,
                            segments,
                        },
                    )
                    &&& data_num > 0 && data_num <= u32::MAX && unit_count * unit_kb * data_num
                        <= u32::MAX ==> strip.capacity == unit_count * unit_kb * data_num
                },
            }
        }),
{
    let copy = unit_count * unit_kb;
    assert(copy >= 0) by (nonlinear_arith)
        requires
            copy == unit_count * unit_kb,
    ;
    if let StripAllocType::Ec { data_num, .. } = strip_type {
        if data_num > 0 {
            assert(copy <= copy * data_num) by (nonlinear_arith)
                requires
                    copy >= 0,
                    data_num > 0,
            ;
        }
    }
}

/// Of a batch of strips, the ones that were allocated are kept in order, and the
/// first failure is the one that is told.
pub proof fn law_batches_tell_the_first_failure(results: Seq<Result<StripModel, AllocErrorModel>>)
    ensures
        allocated_strips(results) == results.filter(
            |result: Result<StripModel, AllocErrorModel>| result is Ok,
        ).map_values(|result: Result<StripModel, AllocErrorModel>| result->Ok_0),
        match first_failure(results) {
            None => forall|i: int| 0 <= i < results.len() ==> (#[trigger] results[i]) is Ok,
            Some(error) => exists|i: int|
                0 <= i < results.len() && (#[trigger] results[i]) == Err::<
                    StripModel,
                    AllocErrorModel,
                >(error) && forall|j: int| 0 <= j < i ==> (#[trigger] results[j]) is Ok,
        },
    decreases results.len(),
{
    reveal(Seq::filter);
    let good = |result: Result<StripModel, AllocErrorModel>| result is Ok;
    let value = |result: Result<StripModel, AllocErrorModel>| result->Ok_0;
    if results.len() > 0 {
        let front = results.drop_last();
        law_batches_tell_the_first_failure(front);
        let kept = front.filter(good);
        if good(results.last()) {
            assert(kept.push(results.last()).map_values(value) =~= kept.map_values(value).push(
                value(results.last()),
            ));
        }
        assert(results[results.len() - 1] == results.last());
        if let Some(error) = first_failure(front) {
            let i = choose|i: int|
                0 <= i < front.len() && (#[trigger] front[i]) == Err::<StripModel, AllocErrorModel>(
                    error,
                ) && forall|j: int| 0 <= j < i ==> (#[trigger] front[j]) is Ok;
            assert(results[i] == front[i]);
            assert forall|j: int| 0 <= j < i implies (#[trigger] results[j]) is Ok by {
                assert(front[j] is Ok);
            }
        } else {
            assert forall|j: int| 0 <= j < front.len() implies (#[trigger] results[j]) is Ok by {
                assert(front[j] is Ok);
            }
        }
    }
    assert(allocated_strips(results) =~= results.filter(good).map_values(value));
}

/// The copies of a strip that is reserved for conversion are the data segment with
/// its number and the run of further copies that belongs to it, and no two strips
/// share one.
pub proof fn law_conversion_copies_are_apart(
    segments: Seq<Segment>,
    data_num: int,
    code_num: int,
    copy_count: int,
    i: int,
    j: int,
    a: int,
    b: int,
)
    requires
        segments.no_duplicates(),
        0 <= code_num,
        1 <= copy_count,
        0 <= i < j < data_num,
        segments.len() == data_num + code_num + data_num * (copy_count - 1),
        0 <= a < copy_count,
        0 <= b < copy_count,
    ensures
        conversion_copies(segments, data_num, code_num, copy_count, i).len() == copy_count,
        conversion_copies(segments, data_num, code_num, copy_count, i)[0] == segments[i],
        conversion_copies(segments, data_num, code_num, copy_count, i)[a] != conversion_copies(
            segments,
            data_num,
            code_num,
            copy_count,
            j,
        )[b],
        !segments.subrange(data_num, data_num + code_num).contains(
            conversion_copies(segments, data_num, code_num, copy_count, i)[a],
        ),
{
    let extra = copy_count - 1;
    let base = data_num + code_num;
    assert(0 <= i * extra && i * extra + extra <= j * extra && j * extra + extra <= data_num * extra)
        by (nonlinear_arith)
        requires
            0 <= i < j < data_num,
            extra >= 0,
    ;
    let x = conversion_copies(segments, data_num, code_num, copy_count, i);
    let y = conversion_copies(segments, data_num, code_num, copy_count, j);
    let xa = if a == 0 {
        i
    } else {
        base + i * extra + a - 1
    };
    let yb = if b == 0 {
        j
    } else {
        base + j * extra + b - 1
    };
    assert(x[a] == segments[xa]);
    assert(y[b] == segments[yb]);
    assert(xa != yb);
    let parity = segments.subrange(data_num, base);
    if parity.contains(x[a]) {
        let k = choose|k: int| 0 <= k < parity.len() && parity[k] == x[a];
        assert(segments[data_num + k] == segments[xa]);
    }
}

proof fn lemma_unusable(groups: Seq<DiskGroupEntry>, excluded: Seq<DiskId>, dg_id: u64)
    ensures
        unusable_groups(groups, excluded).contains(dg_id) <==> exists|i: int|
            0 <= i < groups.len() && (#[trigger] groups[i]).dg_id == dg_id && forall|k: int|
                0 <= k < groups[i].value.disk_ids@.len() ==> excluded.contains(
                    #[trigger] groups[i].value.disk_ids@[k],
                ),
    decreases groups.len(),
{
    if groups.len() > 0 {
        let front = groups.drop_last();
        let before = unusable_groups(front, excluded);
        let all = unusable_groups(groups, excluded);
        lemma_unusable(front, excluded, dg_id);
        assert(groups[groups.len() - 1] == groups.last());
        if all.contains(dg_id) {
            let k = choose|k: int| 0 <= k < all.len() && all[k] == dg_id;
            if k < before.len() {
                assert(before[k] == dg_id);
                let i = choose|i: int|
                    0 <= i < front.len() && (#[trigger] front[i]).dg_id == dg_id && forall|k: int|
                        0 <= k < front[i].value.disk_ids@.len() ==> excluded.contains(
                            #[trigger] front[i].value.disk_ids@[k],
                        );
                assert(groups[i] == front[i]);
            }
        }
        if exists|i: int|
            0 <= i < groups.len() && (#[trigger] groups[i]).dg_id == dg_id && forall|k: int|
                0 <= k < groups[i].value.disk_ids@.len() ==> excluded.contains(
                    #[trigger] groups[i].value.disk_ids@[k],
                ) {
            let i = choose|i: int|
                0 <= i < groups.len() && (#[trigger] groups[i]).dg_id == dg_id && forall|k: int|
                    0 <= k < groups[i].value.disk_ids@.len() ==> excluded.contains(
                        #[trigger] groups[i].value.disk_ids@[k],
                    );
            if i < front.len() {
                assert(front[i] == groups[i]);
                let k = choose|k: int| 0 <= k < before.len() && before[k] == dg_id;
                assert(all[k] == dg_id);
            } else {
                assert(all[all.len() - 1] == dg_id);
            }
        }
    }
}

/// A disk-group is unusable for a replacement exactly where all its disks are
/// excluded.
pub proof fn law_groups_without_other_disks_are_unusable(
    groups: Seq<DiskGroupEntry>,
    excluded: Seq<DiskId>,
    dg_id: u64,
)
    ensures
        unusable_groups(groups, excluded).contains(dg_id) <==> exists|i: int|
            0 <= i < groups.len() && (#[trigger] groups[i]).dg_id == dg_id && forall|k: int|
                0 <= k < groups[i].value.disk_ids@.len() ==> excluded.contains(
                    #[trigger] groups[i].value.disk_ids@[k],
                ),
{
    lemma_unusable(groups, excluded, dg_id);
}

proof fn lemma_with_disks(
    owners: Map<(u64, u64), u64>,
    disks: Seq<DiskId>,
    dg_id: u64,
    disk: DiskId,
)
    ensures
        owner_of(with_disks(owners, disks, dg_id), disk) == (if disks.contains(disk) {
            Some(dg_id)
        } else {
            owner_of(owners, disk)
        }),
    decreases disks.len(),
{
    if disks.len() > 0 {
        let front = disks.drop_last();
        lemma_with_disks(owners, front, dg_id, disk);
        assert(disks[disks.len() - 1] == disks.last());
        if disks.contains(disk) {
            let k = choose|k: int| 0 <= k < disks.len() && disks[k] == disk;
            if k < front.len() {
                assert(front[k] == disk);
            }
        }
        if front.contains(disk) {
            let k = choose|k: int| 0 <= k < front.len() && front[k] == disk;
            assert(disks[k] == disk);
        }
        if disk != disks.last() {
            assert((disk.high, disk.low) != (disks.last().high, disks.last().low));
        }
    }
}

/// A disk belongs to the last disk-group that lists it, and to none where no one
/// does.
pub proof fn law_disks_belong_to_their_group(
    entries: Seq<DiskGroupEntry>,
    disk: DiskId,
    at: int,
)
    requires
        -1 <= at < entries.len(),
        forall|j: int|
            at < j < entries.len() ==> !(#[trigger] entries[j]).value.disk_ids@.contains(disk),
        at >= 0 ==> entries[at].value.disk_ids@.contains(disk),
    ensures
        owner_of(owners_of(entries), disk) == (if at >= 0 {
            Some(entries[at].dg_id)
        } else {
            None
        }),
    decreases entries.len(),
{
    if entries.len() > 0 {
        let front = entries.drop_last();
        let last = entries.last();
        assert(entries[entries.len() - 1] == last);
        lemma_with_disks(owners_of(front), last.value.disk_ids@, last.dg_id, disk);
        if at < front.len() {
            assert(!last.value.disk_ids@.contains(disk));
            assert forall|j: int| at < j < front.len() implies !(
            #[trigger] front[j]).value.disk_ids@.contains(disk) by {
                assert(front[j] == entries[j]);
            }
            law_disks_belong_to_their_group(front, disk, at);
        }
    }
}

/// The segments of a disk-group are those whose disk it owns, in order.
pub proof fn law_members_are_on_the_group(
    owners: Map<(u64, u64), u64>,
    segments: Seq<Segment>,
    group: Option<u64>,
)
    ensures
        members(owners, segments, group) == segments.filter(
            |s: Segment|
                (if s.disk_id is Some && owners.dom().contains(
                    (s.disk_id->0.high, s.disk_id->0.low),
                ) {
                    Some(owners[(s.disk_id->0.high, s.disk_id->0.low)])
                } else {
                    None
                }) == group,
        ),
    decreases segments.len(),
{
    reveal(Seq::filter);
    if segments.len() > 0 {
        law_members_are_on_the_group(owners, segments.drop_last(), group);
    }
}

proof fn lemma_groups_of(owners: Map<(u64, u64), u64>, segments: Seq<Segment>, dg_id: u64)
    ensures
        groups_of(owners, segments).no_duplicates(),
        groups_of(owners, segments).contains(dg_id) <==> exists|i: int|
            0 <= i < segments.len() && segment_group(owners, #[trigger] segments[i]) == Some(dg_id),
    decreases segments.len(),
{
    if segments.len() > 0 {
        let front = segments.drop_last();
        let before = groups_of(owners, front);
        let all = groups_of(owners, segments);
        lemma_groups_of(owners, front, dg_id);
        assert(segments[segments.len() - 1] == segments.last());
        if all.contains(dg_id) {
            let k = choose|k: int| 0 <= k < all.len() && all[k] == dg_id;
            if k < before.len() {
                assert(before[k] == dg_id);
                let i = choose|i: int|
                    0 <= i < front.len() && segment_group(owners, #[trigger] front[i]) == Some(dg_id);
                assert(segments[i] == front[i]);
            }
        }
        if exists|i: int|
            0 <= i < segments.len() && segment_group(owners, #[trigger] segments[i]) == Some(dg_id) {
            let i = choose|i: int|
                0 <= i < segments.len() && segment_group(owners, #[trigger] segments[i]) == Some(
                    dg_id,
                );
            if i < front.len() {
                assert(front[i] == segments[i]);
            }
            if before.contains(dg_id) {
                let k = choose|k: int| 0 <= k < before.len() && before[k] == dg_id;
                assert(all[k] == dg_id);
            } else {
                assert(all[all.len() - 1] == dg_id);
            }
        }
    }
}

/// Segments are grouped by the disk-groups that own their disks: each such
/// disk-group is named once, and no other.
pub proof fn law_groups_are_of_the_segments(
    owners: Map<(u64, u64), u64>,
    segments: Seq<Segment>,
    dg_id: u64,
)
    ensures
        groups_of(owners, segments).no_duplicates(),
        groups_of(owners, segments).contains(dg_id) <==> exists|i: int|
            0 <= i < segments.len() && (#[trigger] segments[i]).disk_id is Some
                && owners.dom().contains(
                (segments[i].disk_id->0.high, segments[i].disk_id->0.low),
            ) && owners[(segments[i].disk_id->0.high, segments[i].disk_id->0.low)] == dg_id,
{
    lemma_groups_of(owners, segments, dg_id);
    if groups_of(owners, segments).contains(dg_id) {
        let i = choose|i: int|
            0 <= i < segments.len() && segment_group(owners, #[trigger] segments[i]) == Some(dg_id);
        assert(segments[i].disk_id is Some);
    }
    if exists|i: int|
        0 <= i < segments.len() && (#[trigger] segments[i]).disk_id is Some && owners.dom().contains(
            (segments[i].disk_id->0.high, segments[i].disk_id->0.low),
        ) && owners[(segments[i].disk_id->0.high, segments[i].disk_id->0.low)] == dg_id {
        let i = choose|i: int|
            0 <= i < segments.len() && (#[trigger] segments[i]).disk_id is Some
                && owners.dom().contains(
                (segments[i].disk_id->0.high, segments[i].disk_id->0.low),
            ) && owners[(segments[i].disk_id->0.high, segments[i].disk_id->0.low)] == dg_id;
        assert(segment_group(owners, segments[i]) == Some(dg_id));
    }
}

/// A freed segment goes to the endpoint of its disk-group where that is known, and to
/// all endpoints where it is not: none is left out.
pub proof fn law_every_group_is_freed(
    groups: Seq<(u64, Seq<Segment>)>,
    endpoints: Seq<Option<Seq<char>>>,
    unrouted: Seq<Segment>,
    i: int,
    s: Segment,
)
    requires
        groups.len() == endpoints.len(),
        0 <= i < groups.len(),
        groups[i].1.contains(s),
    ensures
        endpoints[i] is Some ==> routed_requests(groups, endpoints).contains(
            (endpoints[i]->0, groups[i].1),
        ),
        endpoints[i] is None ==> broadcast_segments(groups, endpoints, unrouted).contains(s),
{
    lemma_routed(groups, endpoints, unrouted, groups.len() as int, i, s);
    assert(groups.take(groups.len() as int) =~= groups);
}

proof fn lemma_routed(
    groups: Seq<(u64, Seq<Segment>)>,
    endpoints: Seq<Option<Seq<char>>>,
    unrouted: Seq<Segment>,
    n: int,
    i: int,
    s: Segment,
)
    requires
        groups.len() == endpoints.len(),
        0 <= i < n <= groups.len(),
        groups[i].1.contains(s),
    ensures
        endpoints[i] is Some ==> routed_requests(groups.take(n), endpoints).contains(
            (endpoints[i]->0, groups[i].1),
        ),
        endpoints[i] is None ==> broadcast_segments(groups.take(n), endpoints, unrouted).contains(s),
    decreases n,
{
    let now = groups.take(n);
    assert(now.drop_last() =~= groups.take(n - 1));
    assert(now.last() == groups[n - 1]);
    let before = routed_requests(groups.take(n - 1), endpoints);
    let all = routed_requests(now, endpoints);
    let sent = broadcast_segments(groups.take(n - 1), endpoints, unrouted);
    let sent_all = broadcast_segments(now, endpoints, unrouted);
    if i < n - 1 {
        lemma_routed(groups, endpoints, unrouted, n - 1, i, s);
        if endpoints[i] is Some {
            let want = (endpoints[i]->0, groups[i].1);
            let k = choose|k: int| 0 <= k < before.len() && before[k] == want;
            assert(all[k] == want);
        } else {
            let k = choose|k: int| 0 <= k < sent.len() && sent[k] == s;
            assert(sent_all[k] == s);
        }
    } else if endpoints[i] is Some {
        assert(all[all.len() - 1] == (endpoints[i]->0, groups[i].1));
    } else {
        let k = choose|k: int| 0 <= k < groups[i].1.len() && groups[i].1[k] == s;
        assert(sent_all[sent.len() + k] == s);
    }
}

} // verus!
