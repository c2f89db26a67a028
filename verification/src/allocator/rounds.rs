//! Block requests of a placement plan, and what their responses come to.
use vstd::prelude::*;
use crate::allocator::pool::{members, owner_of, segment_group, DiskdbClientPool};
use crate::allocator::{AllocError, AllocErrorModel};
use crate::arith::{clip_u32, sat_add_u32, usize_to_u32};
use crate::selector::{block_total, lemma_prefix_total, PlacementEntry};
use crate::text::{decimal, text, text_two_numbers};
use crate::types::{copy_segments, ChunkId, Segment};

verus! {

/// Retries of partial responses.
pub const MAX_ALLOC_RETRIES: usize = 3;

/// What one request came back with: segments, or the text of a failure.
pub type BlockResponse = Result<Vec<Segment>, String>;

/// Model of a response.
pub open spec fn response_model(response: Result<Vec<Segment>, String>) -> Result<
    Seq<Segment>,
    Seq<char>,
> {
    match response {
        Ok(segments) => Ok(segments@),
        Err(error) => Err(error@),
    }
}

/// Models of responses.
pub open spec fn response_models(responses: Seq<Result<Vec<Segment>, String>>) -> Seq<
    Result<Seq<Segment>, Seq<char>>,
> {
    Seq::new(responses.len(), |i: int| response_model(responses[i]))
}

/// What is wrong with a segment that a disk-group handed out.
pub open spec fn segment_fault(
    owners: Map<(u64, u64), u64>,
    segment: Segment,
    dg_id: u64,
    owner_chunk: ChunkId,
    unit_count: u32,
) -> Option<Seq<char>> {
    if segment.owner_chunk != Some(owner_chunk) {
        Some("owner_chunk does not match request"@)
    } else if segment.unit_count != unit_count {
        Some(
            "requested unit_count "@ + decimal(unit_count as nat) + ", got "@ + decimal(
                segment.unit_count as nat,
            ),
        )
    } else {
        match segment.disk_id {
            None => Some("segment has no disk_id"@),
            Some(disk_id) => if owner_of(owners, disk_id) != Some(dg_id) {
                Some("segment disk does not belong to requested disk_group"@)
            } else {
                None
            },
        }
    }
}

/// The fault of the first faulty segment from `from` on.
pub open spec fn first_fault(
    owners: Map<(u64, u64), u64>,
    segments: Seq<Segment>,
    from: int,
    dg_id: u64,
    owner_chunk: ChunkId,
    unit_count: u32,
) -> Option<Seq<char>>
    decreases segments.len() - from,
{
    if from >= segments.len() {
        None
    } else {
        match segment_fault(owners, segments[from], dg_id, owner_chunk, unit_count) {
            Some(fault) => Some(fault),
            None => first_fault(owners, segments, from + 1, dg_id, owner_chunk, unit_count),
        }
    }
}

/// The fault of the last faulty segment up to `upto`.
pub open spec fn last_fault(
    owners: Map<(u64, u64), u64>,
    segments: Seq<Segment>,
    upto: int,
    dg_id: u64,
    owner_chunk: ChunkId,
    unit_count: u32,
) -> Option<Seq<char>>
    decreases upto,
{
    if upto <= 0 {
        None
    } else {
        match segment_fault(owners, segments[upto - 1], dg_id, owner_chunk, unit_count) {
            Some(fault) => Some(fault),
            None => last_fault(owners, segments, upto - 1, dg_id, owner_chunk, unit_count),
        }
    }
}

/// Checks a segment that a disk-group handed out.
pub fn validate_segment(
    pool: &DiskdbClientPool,
    segment: &Segment,
    dg_id: u64,
    owner_chunk: &ChunkId,
    unit_count: u32,
) -> (r: Option<String>)
    ensures
        match r {
            Some(reason) => segment_fault(
                pool.owners(),
                *segment,
                dg_id,
                *owner_chunk,
                unit_count,
            ) == Some(reason@),
            None => segment_fault(pool.owners(), *segment, dg_id, *owner_chunk, unit_count) is None,
        },
{
    if segment.owner_chunk != Some(*owner_chunk) {
        return Some(text("owner_chunk does not match request"));
    }
    if segment.unit_count != unit_count {
        return Some(
            text_two_numbers(
                "requested unit_count ",
                unit_count as u64,
                ", got ",
                segment.unit_count as u64,
            ),
        );
    }
    match segment.disk_id {
        None => Some(text("segment has no disk_id")),
        Some(disk_id) => {
            if pool.dg_for_disk(&disk_id) != Some(dg_id) {
                Some(text("segment disk does not belong to requested disk_group"))
            } else {
                None
            }
        },
    }
}

/// The disk-groups of the entries, each once, by first appearance.
pub open spec fn request_groups(entries: Seq<PlacementEntry>) -> Seq<u64>
    decreases entries.len(),
{
    if entries.len() == 0 {
        Seq::empty()
    } else {
        let front = request_groups(entries.drop_last());
        if front.contains(entries.last().disk_group_id) {
            front
        } else {
            front.push(entries.last().disk_group_id)
        }
    }
}

/// Blocks that the entries ask of a disk-group.
pub open spec fn group_blocks(entries: Seq<PlacementEntry>, dg_id: u64) -> int
    decreases entries.len(),
{
    if entries.len() == 0 {
        0
    } else {
        group_blocks(entries.drop_last(), dg_id) + (if entries.last().disk_group_id == dg_id {
            entries.last().block_count as int
        } else {
            0
        })
    }
}

/// One request for each disk-group of the plan, with its blocks together.
pub open spec fn plan_requests(entries: Seq<PlacementEntry>) -> Seq<(u64, u32)> {
    let groups = request_groups(entries);
    Seq::new(groups.len(), |i: int| (groups[i], clip_u32(group_blocks(entries, groups[i]))))
}

proof fn lemma_group_blocks(entries: Seq<PlacementEntry>, dg_id: u64)
    ensures
        group_blocks(entries, dg_id) >= 0,
    decreases entries.len(),
{
    if entries.len() > 0 {
        lemma_group_blocks(entries.drop_last(), dg_id);
    }
}

fn blocks_of_group(entries: &[PlacementEntry], dg_id: u64) -> (r: u32)
    ensures
        r == clip_u32(group_blocks(entries@, dg_id)),
{
    let mut total: u32 = 0;
    let mut i: usize = 0;
    while i < entries.len()
        invariant
            i <= entries.len(),
            total == clip_u32(group_blocks(entries@.take(i as int), dg_id)),
        decreases entries.len() - i,
    {
        proof {
            assert(entries@.take(i + 1).drop_last() =~= entries@.take(i as int));
            assert(entries@.take(i + 1).last() == entries@[i as int]);
            lemma_group_blocks(entries@.take(i as int), dg_id);
        }
        if entries[i].disk_group_id == dg_id {
            total = sat_add_u32(total, entries[i].block_count);
        }
        i = i + 1;
    }
    assert(entries@.take(i as int) =~= entries@);
    total
}

/// The disk-groups of the entries, each once, by first appearance.
pub fn groups_of_entries(entries: &[PlacementEntry]) -> (r: Vec<u64>)
    ensures
        r@ == request_groups(entries@),
{
    let mut groups: Vec<u64> = Vec::new();
    let mut i: usize = 0;
    while i < entries.len()
        invariant
            i <= entries.len(),
            groups@ == request_groups(entries@.take(i as int)),
        decreases entries.len() - i,
    {
        proof {
            assert(entries@.take(i + 1).drop_last() =~= entries@.take(i as int));
            assert(entries@.take(i + 1).last() == entries@[i as int]);
        }
        if !crate::selector::contains_id(&groups, entries[i].disk_group_id) {
            groups.push(entries[i].disk_group_id);
        }
        i = i + 1;
    }
    assert(entries@.take(i as int) =~= entries@);
    groups
}

/// One request for each disk-group of a plan.
pub fn grouped_requests(entries: &[PlacementEntry]) -> (r: Vec<(u64, u32)>)
    ensures
        r@ == plan_requests(entries@),
{
    let groups = groups_of_entries(entries);
    let mut requests: Vec<(u64, u32)> = Vec::new();
    let mut i: usize = 0;
    while i < groups.len()
        invariant
            i <= groups.len(),
            groups@ == request_groups(entries@),
            requests@ == plan_requests(entries@).take(i as int),
        decreases groups.len() - i,
    {
        let count: u32 = blocks_of_group(entries, groups[i]);
        requests.push((groups[i], count));
        i = i + 1;
        assert(requests@ =~= plan_requests(entries@).take(i as int));
    }
    assert(plan_requests(entries@).take(i as int) =~= plan_requests(entries@));
    requests
}

/// What a round of requests leaves to do.
#[derive(Debug)]
pub enum RoundStep {
    /// Ask for what is still missing, or end where nothing is.
    Go { segments: Vec<Segment>, pending: Vec<(u64, u32)> },
    /// Free the segments and return the error.
    Fail { free: Vec<Segment>, error: AllocError },
}

/// Model of a round's outcome.
pub enum RoundModel {
    Go { segments: Seq<Segment>, pending: Seq<(u64, u32)> },
    Fail { free: Seq<Segment>, error: AllocErrorModel },
}

impl View for RoundStep {
    type V = RoundModel;

    open spec fn view(&self) -> RoundModel {
        match self {
            RoundStep::Go { segments, pending } => RoundModel::Go {
                segments: segments@,
                pending: pending@,
            },
            RoundStep::Fail { free, error } => RoundModel::Fail { free: free@, error: error@ },
        }
    }
}

/// All segments of the responses, in order.
pub open spec fn handed_out(responses: Seq<Result<Seq<Segment>, Seq<char>>>) -> Seq<Segment>
    decreases responses.len(),
{
    if responses.len() == 0 {
        Seq::empty()
    } else {
        let front = handed_out(responses.drop_last());
        match responses.last() {
            Ok(got) => front + got,
            Err(_) => front,
        }
    }
}

/// Takes the responses from `i` on: the first response with too many or with
/// faulty segments fails the round; a partial one leaves the rest pending; a
/// failed request fails the round where every response is sound. Of a failed
/// round everything is freed: `given`, which is all that was handed out.
pub open spec fn round_from(
    owners: Map<(u64, u64), u64>,
    pending: Seq<(u64, u32)>,
    responses: Seq<Result<Seq<Segment>, Seq<char>>>,
    i: int,
    owner_chunk: ChunkId,
    unit_count: u32,
    given: Seq<Segment>,
    segments: Seq<Segment>,
    missing: Seq<(u64, u32)>,
    failure: Option<AllocErrorModel>,
) -> RoundModel
    decreases pending.len() - i,
{
    if i >= pending.len() {
        match failure {
            Some(error) => RoundModel::Fail { free: given, error },
            None => RoundModel::Go { segments, pending: missing },
        }
    } else {
        let dg_id = pending[i].0;
        let requested = pending[i].1;
        match responses[i] {
            Ok(got) => {
                let count = clip_u32(got.len() as int);
                if count > requested {
                    RoundModel::Fail {
                        free: given,
                        error: AllocErrorModel::InvalidResponse {
                            dg_id,
                            reason: "requested "@ + decimal(requested as nat) + " segments, got "@
                                + decimal(count as nat),
                        },
                    }
                } else {
                    match first_fault(owners, got, 0, dg_id, owner_chunk, unit_count) {
                        Some(reason) => RoundModel::Fail {
                            free: given,
                            error: AllocErrorModel::InvalidResponse { dg_id, reason },
                        },
                        None => round_from(
                            owners,
                            pending,
                            responses,
                            i + 1,
                            owner_chunk,
                            unit_count,
                            given,
                            segments + got,
                            if count < requested {
                                missing.push((dg_id, (requested - count) as u32))
                            } else {
                                missing
                            },
                            failure,
                        ),
                    }
                }
            },
            Err(error) => round_from(
                owners,
                pending,
                responses,
                i + 1,
                owner_chunk,
                unit_count,
                given,
                segments,
                missing,
                match failure {
                    Some(first) => Some(first),
                    None => Some(AllocErrorModel::AllocateFailed { dg_id, error }),
                },
            ),
        }
    }
}

/// What a round comes to when it is the attempt with this number: after the
/// last one nothing may be missing.
pub open spec fn round_outcome(
    owners: Map<(u64, u64), u64>,
    entries: Seq<PlacementEntry>,
    attempt: usize,
    segments: Seq<Segment>,
    pending: Seq<(u64, u32)>,
    responses: Seq<Result<Seq<Segment>, Seq<char>>>,
    owner_chunk: ChunkId,
    unit_count: u32,
) -> RoundModel {
    match round_from(
        owners,
        pending,
        responses,
        0,
        owner_chunk,
        unit_count,
        segments + handed_out(responses),
        segments,
        Seq::empty(),
        None,
    ) {
        RoundModel::Go { segments: all, pending: missing } => if attempt >= MAX_ALLOC_RETRIES
            && missing.len() > 0 {
            RoundModel::Fail {
                free: segments + handed_out(responses),
                error: AllocErrorModel::PartialAllocation {
                    requested: block_total(entries) as u32,
                    got: clip_u32(all.len() as int),
                },
            }
        } else {
            RoundModel::Go { segments: all, pending: missing }
        },
        failed => failed,
    }
}

fn find_fault(
    pool: &DiskdbClientPool,
    segments: &[Segment],
    dg_id: u64,
    owner_chunk: &ChunkId,
    unit_count: u32,
) -> (r: Option<String>)
    ensures
        match r {
            Some(reason) => first_fault(
                pool.owners(),
                segments@,
                0,
                dg_id,
                *owner_chunk,
                unit_count,
            ) == Some(reason@),
            None => first_fault(
                pool.owners(),
                segments@,
                0,
                dg_id,
                *owner_chunk,
                unit_count,
            ) is None,
        },
{
    let mut i: usize = 0;
    while i < segments.len()
        invariant
            i <= segments.len(),
            first_fault(pool.owners(), segments@, 0, dg_id, *owner_chunk, unit_count)
                == first_fault(
                pool.owners(),
                segments@,
                i as int,
                dg_id,
                *owner_chunk,
                unit_count,
            ),
        decreases segments.len() - i,
    {
        match validate_segment(pool, &segments[i], dg_id, owner_chunk, unit_count) {
            Some(reason) => {
                return Some(reason);
            },
            None => {},
        }
        i = i + 1;
    }
    None
}

fn total_blocks_of(entries: &[PlacementEntry]) -> (r: u32)
    requires
        block_total(entries@) <= u32::MAX,
    ensures
        r == block_total(entries@),
{
    let mut total: u32 = 0;
    let mut i: usize = 0;
    while i < entries.len()
        invariant
            i <= entries.len(),
            block_total(entries@) <= u32::MAX,
            total == block_total(entries@.take(i as int)),
        decreases entries.len() - i,
    {
        proof {
            assert(entries@.take(i + 1).drop_last() =~= entries@.take(i as int));
            assert(entries@.take(i + 1).last() == entries@[i as int]);
            lemma_prefix_total(entries@, i + 1);
        }
        total = total + entries[i].block_count;
        i = i + 1;
    }
    assert(entries@.take(i as int) =~= entries@);
    total
}

/// Adds the segments of the responses from `from` on to those of the responses
/// before it.
fn append_rest(
    all: &mut Vec<Segment>,
    responses: &[BlockResponse],
    from: usize,
    Ghost(start): Ghost<Seq<Segment>>,
)
    requires
        from <= responses@.len(),
        old(all)@ == start + handed_out(response_models(responses@).take(from as int)),
    ensures
        final(all)@ == start + handed_out(response_models(responses@)),
{
    let ghost models = response_models(responses@);
    let mut i: usize = from;
    while i < responses.len()
        invariant
            i <= responses@.len(),
            models == response_models(responses@),
            all@ == start + handed_out(models.take(i as int)),
        decreases responses.len() - i,
    {
        proof {
            assert(models[i as int] == response_model(responses@[i as int]));
            assert(models.take(i + 1).drop_last() =~= models.take(i as int));
            assert(models.take(i + 1).last() == models[i as int]);
        }
        match &responses[i] {
            Ok(got) => {
                let mut more = copy_segments(got);
                all.append(&mut more);
                assert(all@ =~= start + handed_out(models.take(i + 1)));
            },
            Err(_) => {},
        }
        i = i + 1;
    }
    assert(models.take(i as int) =~= models);
}

/// Takes the responses to one round of requests.
pub fn absorb_round(
    pool: &DiskdbClientPool,
    entries: &[PlacementEntry],
    attempt: usize,
    segments: Vec<Segment>,
    pending: &[(u64, u32)],
    responses: Vec<BlockResponse>,
    owner_chunk: &ChunkId,
    unit_count: u32,
) -> (r: RoundStep)
    requires
        responses@.len() == pending@.len(),
        block_total(entries@) <= u32::MAX,
    ensures
        r@ == round_outcome(
            pool.owners(),
            entries@,
            attempt,
            segments@,
            pending@,
            response_models(responses@),
            *owner_chunk,
            unit_count,
        ),
{
    let ghost owners = pool.owners();
    let ghost models = response_models(responses@);
    let ghost start = segments@;
    let ghost given = start + handed_out(models);
    let ghost whole = round_from(
        owners,
        pending@,
        models,
        0,
        *owner_chunk,
        unit_count,
        given,
        start,
        Seq::empty(),
        None,
    );
    assert(models.take(0) =~= Seq::<Result<Seq<Segment>, Seq<char>>>::empty());
    let mut all: Vec<Segment> = segments;
    let mut missing: Vec<(u64, u32)> = Vec::new();
    let mut failure: Option<AllocError> = None;
    let mut i: usize = 0;
    while i < pending.len()
        invariant
            i <= pending.len(),
            responses@.len() == pending@.len(),
            owners == pool.owners(),
            models == response_models(responses@),
            whole == round_from(
                owners,
                pending@,
                models,
                i as int,
                *owner_chunk,
                unit_count,
                given,
                all@,
                missing@,
                match failure {
                    Some(error) => Some(error@),
                    None => None,
                },
            ),
            whole == round_from(
                owners,
                pending@,
                models,
                0,
                *owner_chunk,
                unit_count,
                given,
                start,
                Seq::empty(),
                None,
            ),
            start == segments@,
            given == start + handed_out(models),
            all@ == start + handed_out(models.take(i as int)),
        decreases pending.len() - i,
    {
        let dg_id: u64 = pending[i].0;
        let requested: u32 = pending[i].1;
        assert(models[i as int] == response_model(responses@[i as int]));
        proof {
            assert(models.take(i + 1).drop_last() =~= models.take(i as int));
            assert(models.take(i + 1).last() == models[i as int]);
        }
        match &responses[i] {
            Ok(got) => {
                let count: u32 = usize_to_u32(got.len());
                let fault = if count > requested {
                    Some(
                        text_two_numbers(
                            "requested ",
                            requested as u64,
                            " segments, got ",
                            count as u64,
                        ),
                    )
                } else {
                    find_fault(pool, got, dg_id, owner_chunk, unit_count)
                };
                let mut more = copy_segments(got);
                all.append(&mut more);
                assert(all@ =~= start + handed_out(models.take(i + 1)));
                match fault {
                    Some(reason) => {
                        append_rest(&mut all, &responses, i + 1, Ghost(start));
                        return RoundStep::Fail {
                            free: all,
                            error: AllocError::InvalidResponse { dg_id, reason },
                        };
                    },
                    None => {},
                }
                if count < requested {
                    missing.push((dg_id, requested - count));
                }
            },
            Err(error) => {
                if failure.is_none() {
                    failure =
                    Some(AllocError::AllocateFailed { dg_id, error: text(error.as_str()) });
                }
            },
        }
        i = i + 1;
    }
    assert(models.take(i as int) =~= models);
    match failure {
        Some(error) => RoundStep::Fail { free: all, error },
        None => {
            if attempt >= MAX_ALLOC_RETRIES && missing.len() > 0 {
                let got: u32 = usize_to_u32(all.len());
                RoundStep::Fail {
                    free: all,
                    error: AllocError::PartialAllocation {
                        requested: total_blocks_of(entries),
                        got,
                    },
                }
            } else {
                RoundStep::Go { segments: all, pending: missing }
            }
        },
    }
}

/// The error of a failed allocation whose segments were freed: the cause, or a
/// rollback error that names both where the free failed too.
pub fn rollback_or_error(cause: AllocError, freed: Result<(), AllocError>) -> (r: AllocError)
    ensures
        r@ == (match freed {
            Ok(()) => cause@,
            Err(rollback) => AllocErrorModel::Rollback(
                cause@.message() + "; "@ + rollback@.message(),
            ),
        }),
{
    match freed {
        Ok(()) => cause,
        Err(rollback) => {
            let mut message = cause.message();
            message.append("; ");
            let second = rollback.message();
            message.append(second.as_str());
            AllocError::Rollback(message)
        },
    }
}

// ---------------------------------------------------------------------------
// Segments in the order of the plan.
// ---------------------------------------------------------------------------

/// Number of the entries that stand on the disk-group.
pub open spec fn group_entries(entries: Seq<PlacementEntry>, dg_id: u64) -> nat
    decreases entries.len(),
{
    if entries.len() == 0 {
        0
    } else {
        group_entries(entries.drop_last(), dg_id) + (if entries.last().disk_group_id == dg_id {
            1nat
        } else {
            0nat
        })
    }
}

/// What an ordered allocation comes to.
#[derive(Debug)]
pub enum OrderedStep {
    /// One segment for each entry, in the order of the plan.
    Done(Vec<Segment>),
    /// Free the segments and return the error.
    Fail { free: Vec<Segment>, error: AllocError },
}

/// The error of the responses up to `n`: a response of the wrong size or with a
/// faulty segment replaces an earlier error, a failed request does not.
pub open spec fn ordered_error(
    owners: Map<(u64, u64), u64>,
    entries: Seq<PlacementEntry>,
    responses: Seq<Result<Seq<Segment>, Seq<char>>>,
    n: int,
    owner_chunk: ChunkId,
    unit_count: u32,
) -> Option<AllocErrorModel>
    decreases n,
{
    if n <= 0 {
        None
    } else {
        let before = ordered_error(owners, entries, responses, n - 1, owner_chunk, unit_count);
        let dg_id = request_groups(entries)[n - 1];
        let wanted = group_entries(entries, dg_id);
        match responses[n - 1] {
            Ok(got) => if got.len() != wanted {
                Some(
                    AllocErrorModel::PartialAllocation {
                        requested: clip_u32(wanted as int),
                        got: clip_u32(got.len() as int),
                    },
                )
            } else {
                match last_fault(
                    owners,
                    got,
                    got.len() as int,
                    dg_id,
                    owner_chunk,
                    unit_count,
                ) {
                    Some(reason) => Some(AllocErrorModel::InvalidResponse { dg_id, reason }),
                    None => before,
                }
            },
            Err(error) => match before {
                Some(first) => Some(first),
                None => Some(AllocErrorModel::AllocateFailed { dg_id, error }),
            },
        }
    }
}

/// The segment of entry `i`: of its disk-group's response the one in the place
/// that the entry has among those of the group.
pub open spec fn segment_for(
    entries: Seq<PlacementEntry>,
    responses: Seq<Result<Seq<Segment>, Seq<char>>>,
    i: int,
) -> Segment {
    let dg_id = entries[i].disk_group_id;
    let group = request_groups(entries).index_of(dg_id);
    responses[group]->Ok_0[group_entries(entries.take(i), dg_id) as int]
}

proof fn lemma_request_groups(entries: Seq<PlacementEntry>)
    ensures
        request_groups(entries).no_duplicates(),
        forall|i: int|
            0 <= i < entries.len() ==> request_groups(entries).contains(
                (#[trigger] entries[i]).disk_group_id,
            ),
    decreases entries.len(),
{
    if entries.len() > 0 {
        let front = request_groups(entries.drop_last());
        let all = request_groups(entries);
        lemma_request_groups(entries.drop_last());
        assert forall|i: int| 0 <= i < entries.len() implies all.contains(
            (#[trigger] entries[i]).disk_group_id,
        ) by {
            if i < entries.len() - 1 {
                assert(entries.drop_last()[i] == entries[i]);
                let k = choose|k: int|
                    0 <= k < front.len() && front[k] == entries[i].disk_group_id;
                assert(all[k] == entries[i].disk_group_id);
            } else if all != front {
                assert(all[all.len() - 1] == entries.last().disk_group_id);
            }
        }
    }
}

proof fn lemma_group_entries_prefix(entries: Seq<PlacementEntry>, i: int, dg_id: u64)
    requires
        0 <= i < entries.len(),
        entries[i].disk_group_id == dg_id,
    ensures
        group_entries(entries.take(i), dg_id) < group_entries(entries, dg_id),
    decreases entries.len(),
{
    if i == entries.len() - 1 {
        assert(entries.take(i) =~= entries.drop_last());
    } else {
        lemma_group_entries_prefix(entries.drop_last(), i, dg_id);
        assert(entries.drop_last().take(i) =~= entries.take(i));
    }
}

fn entries_of_group(entries: &[PlacementEntry], dg_id: u64, upto: usize) -> (r: usize)
    requires
        upto <= entries@.len(),
    ensures
        r == group_entries(entries@.take(upto as int), dg_id),
        r <= upto,
{
    let mut count: usize = 0;
    let mut i: usize = 0;
    assert(entries@.take(0) =~= Seq::<PlacementEntry>::empty());
    while i < upto
        invariant
            i <= upto <= entries@.len(),
            count <= i,
            count == group_entries(entries@.take(i as int), dg_id),
        decreases upto - i,
    {
        proof {
            assert(entries@.take(i + 1).drop_last() =~= entries@.take(i as int));
            assert(entries@.take(i + 1).last() == entries@[i as int]);
        }
        if entries[i].disk_group_id == dg_id {
            count = count + 1;
        }
        i = i + 1;
    }
    count
}

fn position_of(ids: &Vec<u64>, id: u64) -> (r: usize)
    requires
        ids@.contains(id),
        ids@.no_duplicates(),
    ensures
        r < ids@.len(),
        ids@[r as int] == id,
        r == ids@.index_of(id),
{
    let mut i: usize = 0;
    while i < ids.len()
        invariant
            i <= ids.len(),
            ids@.contains(id),
            ids@.no_duplicates(),
            forall|j: int| 0 <= j < i ==> ids@[j] != id,
        decreases ids.len() - i,
    {
        if ids[i] == id {
            proof {
                let k = ids@.index_of(id);
                assert(0 <= k < ids@.len() && ids@[k] == id);
                if k != i {
                    assert(ids@[k] != ids@[i as int]);
                }
            }
            return i;
        }
        i = i + 1;
    }
    assert(false);
    0
}

fn find_last_fault(
    pool: &DiskdbClientPool,
    segments: &[Segment],
    dg_id: u64,
    owner_chunk: &ChunkId,
    unit_count: u32,
) -> (r: Option<String>)
    ensures
        match r {
            Some(reason) => last_fault(
                pool.owners(),
                segments@,
                segments@.len() as int,
                dg_id,
                *owner_chunk,
                unit_count,
            ) == Some(reason@),
            None => last_fault(
                pool.owners(),
                segments@,
                segments@.len() as int,
                dg_id,
                *owner_chunk,
                unit_count,
            ) is None,
        },
{
    let mut i: usize = segments.len();
    while i > 0
        invariant
            i <= segments@.len(),
            last_fault(
                pool.owners(),
                segments@,
                segments@.len() as int,
                dg_id,
                *owner_chunk,
                unit_count,
            ) == last_fault(
                pool.owners(),
                segments@,
                i as int,
                dg_id,
                *owner_chunk,
                unit_count,
            ),
        decreases i,
    {
        match validate_segment(pool, &segments[i - 1], dg_id, owner_chunk, unit_count) {
            Some(reason) => {
                return Some(reason);
            },
            None => {},
        }
        i = i - 1;
    }
    None
}

/// The number of blocks to ask of each disk-group for an ordered allocation.
pub fn ordered_requests(entries: &[PlacementEntry]) -> (r: Vec<(u64, u32)>)
    ensures
        r@.len() == request_groups(entries@).len(),
        forall|i: int|
            0 <= i < r@.len() ==> #[trigger] r@[i] == (
                request_groups(entries@)[i],
                clip_u32(group_entries(entries@, request_groups(entries@)[i]) as int),
            ),
{
    let groups = groups_of_entries(entries);
    let n: usize = entries.len();
    let mut requests: Vec<(u64, u32)> = Vec::new();
    let mut i: usize = 0;
    while i < groups.len()
        invariant
            i <= groups.len(),
            n == entries@.len(),
            groups@ == request_groups(entries@),
            requests@.len() == i,
            forall|j: int|
                0 <= j < i ==> #[trigger] requests@[j] == (
                    groups@[j],
                    clip_u32(group_entries(entries@, groups@[j]) as int),
                ),
        decreases groups.len() - i,
    {
        let count: usize = entries_of_group(entries, groups[i], n);
        assert(entries@.take(n as int) =~= entries@);
        requests.push((groups[i], usize_to_u32(count)));
        i = i + 1;
    }
    requests
}

/// Puts the segments of an ordered allocation into the order of the plan.
pub fn finish_ordered_allocation(
    pool: &DiskdbClientPool,
    entries: &[PlacementEntry],
    responses: Vec<BlockResponse>,
    owner_chunk: &ChunkId,
    unit_count: u32,
) -> (r: OrderedStep)
    requires
        responses@.len() == request_groups(entries@).len(),
    ensures
        match r {
            OrderedStep::Done(segments) => ordered_error(
                pool.owners(),
                entries@,
                response_models(responses@),
                responses@.len() as int,
                *owner_chunk,
                unit_count,
            ) is None && segments@ == Seq::new(
                entries@.len(),
                |i: int| segment_for(entries@, response_models(responses@), i),
            ),
            OrderedStep::Fail { free, error } => ordered_error(
                pool.owners(),
                entries@,
                response_models(responses@),
                responses@.len() as int,
                *owner_chunk,
                unit_count,
            ) == Some(error@) && free@ == handed_out(response_models(responses@)),
        },
{
    let ghost owners = pool.owners();
    let ghost models = response_models(responses@);
    let groups = groups_of_entries(entries);
    let total: usize = entries.len();
    let mut allocated: Vec<Segment> = Vec::new();
    let mut error: Option<AllocError> = None;
    let mut i: usize = 0;
    while i < groups.len()
        invariant
            i <= groups.len(),
            total == entries@.len(),
            owners == pool.owners(),
            models == response_models(responses@),
            groups@ == request_groups(entries@),
            responses@.len() == groups@.len(),
            allocated@ == handed_out(models.take(i as int)),
            (match error {
                Some(e) => Some(e@),
                None => None,
            }) == ordered_error(owners, entries@, models, i as int, *owner_chunk, unit_count),
            error is None ==> forall|j: int|
                0 <= j < i ==> ((#[trigger] models[j]) matches Ok(got) && got.len() == group_entries(
                    entries@,
                    groups@[j],
                )),
        decreases groups.len() - i,
    {
        proof {
            assert(models.take(i + 1).drop_last() =~= models.take(i as int));
            assert(models.take(i + 1).last() == response_model(responses@[i as int]));
            assert(entries@.take(total as int) =~= entries@);
        }
        let dg_id: u64 = groups[i];
        let wanted: usize = entries_of_group(entries, dg_id, total);
        match &responses[i] {
            Ok(got) => {
                let mut more = copy_segments(got);
                allocated.append(&mut more);
                if got.len() != wanted {
                    error =
                    Some(
                        AllocError::PartialAllocation {
                            requested: usize_to_u32(wanted),
                            got: usize_to_u32(got.len()),
                        },
                    );
                } else {
                    match find_last_fault(pool, got, dg_id, owner_chunk, unit_count) {
                        Some(reason) => {
                            error = Some(AllocError::InvalidResponse { dg_id, reason });
                        },
                        None => {},
                    }
                }
            },
            Err(message) => {
                if error.is_none() {
                    error =
                    Some(AllocError::AllocateFailed { dg_id, error: text(message.as_str()) });
                }
            },
        }
        i = i + 1;
    }
    assert(models.take(i as int) =~= models);
    match error {
        Some(error) => OrderedStep::Fail { free: allocated, error },
        None => {
            proof {
                lemma_request_groups(entries@);
            }
            let mut ordered: Vec<Segment> = Vec::new();
            let mut k: usize = 0;
            while k < total
                invariant
                    k <= total,
                    total == entries@.len(),
                    models == response_models(responses@),
                    groups@ == request_groups(entries@),
                    groups@.no_duplicates(),
                    responses@.len() == groups@.len(),
                    forall|j: int|
                        0 <= j < entries@.len() ==> groups@.contains(
                            (#[trigger] entries@[j]).disk_group_id,
                        ),
                    forall|j: int|
                        0 <= j < groups@.len() ==> ((#[trigger] models[j]) matches Ok(got)
                            && got.len() == group_entries(entries@, groups@[j])),
                    ordered@.len() == k,
                    forall|j: int|
                        0 <= j < k ==> #[trigger] ordered@[j] == segment_for(entries@, models, j),
                decreases total - k,
            {
                let dg_id: u64 = entries[k].disk_group_id;
                assert(groups@.contains(entries@[k as int].disk_group_id));
                let at: usize = position_of(&groups, dg_id);
                let rank: usize = entries_of_group(entries, dg_id, k);
                proof {
                    lemma_group_entries_prefix(entries@, k as int, dg_id);
                    assert(models[at as int] == response_model(responses@[at as int]));
                }
                match &responses[at] {
                    Ok(got) => {
                        ordered.push(got[rank]);
                    },
                    Err(_) => {
                        assert(false);
                    },
                }
                k = k + 1;
            }
            assert(ordered@ =~= Seq::new(
                entries@.len(),
                |j: int| segment_for(entries@, models, j),
            ));
            OrderedStep::Done(ordered)
        },
    }
}

// ---------------------------------------------------------------------------
// Laws.
// ---------------------------------------------------------------------------

/// Every segment that a round keeps belongs to the chunk, has the units asked
/// for, and lies on a known disk-group.
pub proof fn law_round_keeps_sound_segments(
    owners: Map<(u64, u64), u64>,
    pending: Seq<(u64, u32)>,
    responses: Seq<Result<Seq<Segment>, Seq<char>>>,
    i: int,
    owner_chunk: ChunkId,
    unit_count: u32,
    given: Seq<Segment>,
    segments: Seq<Segment>,
    missing: Seq<(u64, u32)>,
    failure: Option<AllocErrorModel>,
)
    requires
        0 <= i,
        responses.len() == pending.len(),
        forall|k: int|
            0 <= k < segments.len() ==> sound(owners, owner_chunk, unit_count, #[trigger] segments[k]),
    ensures
        round_from(
            owners,
            pending,
            responses,
            i,
            owner_chunk,
            unit_count,
            given,
            segments,
            missing,
            failure,
        ) matches RoundModel::Go { segments: all, .. } ==> forall|k: int|
            0 <= k < all.len() ==> sound(owners, owner_chunk, unit_count, #[trigger] all[k]),
    decreases pending.len() - i,
{
    if i < pending.len() {
        let dg_id = pending[i].0;
        let requested = pending[i].1;
        match responses[i] {
            Ok(got) => {
                let count = clip_u32(got.len() as int);
                if count <= requested && first_fault(
                    owners,
                    got,
                    0,
                    dg_id,
                    owner_chunk,
                    unit_count,
                ) is None {
                    lemma_no_fault(owners, got, 0, dg_id, owner_chunk, unit_count);
                    let all = segments + got;
                    assert forall|k: int| 0 <= k < all.len() implies sound(
                        owners,
                        owner_chunk,
                        unit_count,
                        #[trigger] all[k],
                    ) by {
                        if k >= segments.len() {
                            assert(all[k] == got[k - segments.len()]);
                        } else {
                            assert(all[k] == segments[k]);
                        }
                    }
                    law_round_keeps_sound_segments(
                        owners,
                        pending,
                        responses,
                        i + 1,
                        owner_chunk,
                        unit_count,
                        given,
                        all,
                        if count < requested {
                            missing.push((dg_id, (requested - count) as u32))
                        } else {
                            missing
                        },
                        failure,
                    );
                }
            },
            Err(error) => {
                law_round_keeps_sound_segments(
                    owners,
                    pending,
                    responses,
                    i + 1,
                    owner_chunk,
                    unit_count,
                    given,
                    segments,
                    missing,
                    match failure {
                        Some(first) => Some(first),
                        None => Some(AllocErrorModel::AllocateFailed { dg_id, error }),
                    },
                );
            },
        }
    }
}

/// The segment belongs to the chunk, has the units asked for, and lies on a
/// known disk-group.
pub open spec fn sound(
    owners: Map<(u64, u64), u64>,
    owner_chunk: ChunkId,
    unit_count: u32,
    segment: Segment,
) -> bool {
    segment.owner_chunk == Some(owner_chunk) && segment.unit_count == unit_count && segment_group(
        owners,
        segment,
    ) is Some
}

proof fn lemma_no_fault(
    owners: Map<(u64, u64), u64>,
    segments: Seq<Segment>,
    from: int,
    dg_id: u64,
    owner_chunk: ChunkId,
    unit_count: u32,
)
    requires
        0 <= from,
        first_fault(owners, segments, from, dg_id, owner_chunk, unit_count) is None,
    ensures
        forall|k: int|
            from <= k < segments.len() ==> sound(
                owners,
                owner_chunk,
                unit_count,
                #[trigger] segments[k],
            ),
    decreases segments.len() - from,
{
    if from < segments.len() {
        lemma_no_fault(owners, segments, from + 1, dg_id, owner_chunk, unit_count);
    }
}

// ---------------------------------------------------------------------------
// Accounting of the rounds.
// ---------------------------------------------------------------------------

/// Segments that lie on a disk-group.
pub open spec fn held(owners: Map<(u64, u64), u64>, segments: Seq<Segment>, dg_id: u64) -> nat {
    members(owners, segments, Some(dg_id)).len()
}

/// Blocks that the requests from `i` on ask of a disk-group.
pub open spec fn asked_from(pending: Seq<(u64, u32)>, i: int, dg_id: u64) -> int
    decreases pending.len() - i,
{
    if i >= pending.len() {
        0
    } else {
        asked_from(pending, i + 1, dg_id) + (if pending[i].0 == dg_id {
            pending[i].1 as int
        } else {
            0
        })
    }
}

/// For every disk-group the segments so far and the requests still pending make
/// up the blocks of the plan.
pub open spec fn accounts_for(
    owners: Map<(u64, u64), u64>,
    entries: Seq<PlacementEntry>,
    segments: Seq<Segment>,
    pending: Seq<(u64, u32)>,
) -> bool {
    forall|dg_id: u64| #[trigger]
        held(owners, segments, dg_id) + asked_from(pending, 0, dg_id) == group_blocks(
            entries,
            dg_id,
        )
}

proof fn lemma_asked_push(pending: Seq<(u64, u32)>, more: (u64, u32), i: int, dg_id: u64)
    requires
        0 <= i <= pending.len(),
    ensures
        asked_from(pending.push(more), i, dg_id) == asked_from(pending, i, dg_id) + (if more.0
            == dg_id {
            more.1 as int
        } else {
            0
        }),
    decreases pending.len() - i,
{
    let next = pending.push(more);
    if i < pending.len() {
        lemma_asked_push(pending, more, i + 1, dg_id);
        assert(next[i] == pending[i]);
    } else {
        assert(next[i] == more);
        assert(asked_from(next, i + 1, dg_id) == 0);
    }
}

proof fn lemma_held_concat(
    owners: Map<(u64, u64), u64>,
    a: Seq<Segment>,
    b: Seq<Segment>,
    dg_id: u64,
)
    ensures
        held(owners, a + b, dg_id) == held(owners, a, dg_id) + held(owners, b, dg_id),
    decreases b.len(),
{
    if b.len() == 0 {
        assert(a + b =~= a);
    } else {
        lemma_held_concat(owners, a, b.drop_last(), dg_id);
        assert((a + b).drop_last() =~= a + b.drop_last());
        assert((a + b).last() == b.last());
    }
}

proof fn lemma_held_all(owners: Map<(u64, u64), u64>, segments: Seq<Segment>, own: u64, dg_id: u64)
    requires
        forall|k: int|
            0 <= k < segments.len() ==> segment_group(owners, #[trigger] segments[k]) == Some(own),
    ensures
        held(owners, segments, dg_id) == (if own == dg_id {
            segments.len()
        } else {
            0
        }),
    decreases segments.len(),
{
    if segments.len() > 0 {
        let front = segments.drop_last();
        assert forall|k: int| 0 <= k < front.len() implies segment_group(
            owners,
            #[trigger] front[k],
        ) == Some(own) by {
            assert(front[k] == segments[k]);
        }
        lemma_held_all(owners, front, own, dg_id);
        assert(segments.last() == segments[segments.len() - 1]);
    }
}

proof fn lemma_faultless_group(
    owners: Map<(u64, u64), u64>,
    segments: Seq<Segment>,
    from: int,
    dg_id: u64,
    owner_chunk: ChunkId,
    unit_count: u32,
)
    requires
        0 <= from,
        first_fault(owners, segments, from, dg_id, owner_chunk, unit_count) is None,
    ensures
        forall|k: int|
            from <= k < segments.len() ==> segment_group(owners, #[trigger] segments[k]) == Some(
                dg_id,
            ),
    decreases segments.len() - from,
{
    if from < segments.len() {
        lemma_faultless_group(owners, segments, from + 1, dg_id, owner_chunk, unit_count);
    }
}

/// A round that goes on loses nothing and counts nothing twice: for every
/// disk-group, what it takes and what it leaves pending is what was asked for.
pub proof fn law_round_accounts(
    owners: Map<(u64, u64), u64>,
    pending: Seq<(u64, u32)>,
    responses: Seq<Result<Seq<Segment>, Seq<char>>>,
    i: int,
    owner_chunk: ChunkId,
    unit_count: u32,
    given: Seq<Segment>,
    segments: Seq<Segment>,
    missing: Seq<(u64, u32)>,
    failure: Option<AllocErrorModel>,
    dg_id: u64,
)
    requires
        0 <= i,
        responses.len() == pending.len(),
        forall|k: int|
            0 <= k < responses.len() ==> ((#[trigger] responses[k]) matches Ok(got) ==> got.len()
                <= u32::MAX),
    ensures
        round_from(
            owners,
            pending,
            responses,
            i,
            owner_chunk,
            unit_count,
            given,
            segments,
            missing,
            failure,
        ) matches RoundModel::Go { segments: all, pending: rest } ==> held(owners, all, dg_id)
            + asked_from(rest, 0, dg_id) == held(owners, segments, dg_id) + asked_from(
            missing,
            0,
            dg_id,
        ) + asked_from(pending, i, dg_id),
    decreases pending.len() - i,
{
    if i < pending.len() {
        let own = pending[i].0;
        let requested = pending[i].1;
        match responses[i] {
            Ok(got) => {
                let count = clip_u32(got.len() as int);
                if count <= requested && first_fault(
                    owners,
                    got,
                    0,
                    own,
                    owner_chunk,
                    unit_count,
                ) is None {
                    lemma_faultless_group(owners, got, 0, own, owner_chunk, unit_count);
                    lemma_held_all(owners, got, own, dg_id);
                    lemma_held_concat(owners, segments, got, dg_id);
                    let short = (own, (requested - count) as u32);
                    lemma_asked_push(missing, short, 0, dg_id);
                    law_round_accounts(
                        owners,
                        pending,
                        responses,
                        i + 1,
                        owner_chunk,
                        unit_count,
                        given,
                        segments + got,
                        if count < requested {
                            missing.push(short)
                        } else {
                            missing
                        },
                        failure,
                        dg_id,
                    );
                }
            },
            Err(error) => {
                law_failed_round_fails(
                    owners,
                    pending,
                    responses,
                    i + 1,
                    owner_chunk,
                    unit_count,
                    given,
                    segments,
                    missing,
                    match failure {
                        Some(first) => first,
                        None => AllocErrorModel::AllocateFailed { dg_id: own, error },
                    },
                );
            },
        }
    }
}

/// A round with a failed request fails, and everything that was handed out is
/// freed.
pub proof fn law_failed_round_fails(
    owners: Map<(u64, u64), u64>,
    pending: Seq<(u64, u32)>,
    responses: Seq<Result<Seq<Segment>, Seq<char>>>,
    i: int,
    owner_chunk: ChunkId,
    unit_count: u32,
    given: Seq<Segment>,
    segments: Seq<Segment>,
    missing: Seq<(u64, u32)>,
    failure: AllocErrorModel,
)
    requires
        0 <= i,
    ensures
        round_from(
            owners,
            pending,
            responses,
            i,
            owner_chunk,
            unit_count,
            given,
            segments,
            missing,
            Some(failure),
        ) matches RoundModel::Fail { free, .. } && free == given,
    decreases pending.len() - i,
{
    if i < pending.len() {
        let own = pending[i].0;
        let requested = pending[i].1;
        match responses[i] {
            Ok(got) => {
                let count = clip_u32(got.len() as int);
                law_failed_round_fails(
                    owners,
                    pending,
                    responses,
                    i + 1,
                    owner_chunk,
                    unit_count,
                    given,
                    segments + got,
                    if count < requested {
                        missing.push((own, (requested - count) as u32))
                    } else {
                        missing
                    },
                    failure,
                );
            },
            Err(_) => {
                law_failed_round_fails(
                    owners,
                    pending,
                    responses,
                    i + 1,
                    owner_chunk,
                    unit_count,
                    given,
                    segments,
                    missing,
                    failure,
                );
            },
        }
    }
}

proof fn lemma_blocks_of_groups(entries: Seq<PlacementEntry>, dg_id: u64)
    ensures
        request_groups(entries).no_duplicates(),
        !request_groups(entries).contains(dg_id) ==> group_blocks(entries, dg_id) == 0,
        0 <= group_blocks(entries, dg_id) <= block_total(entries),
    decreases entries.len(),
{
    if entries.len() > 0 {
        let front = entries.drop_last();
        lemma_blocks_of_groups(front, dg_id);
        let last = entries.last().disk_group_id;
        let groups = request_groups(front);
        let all = request_groups(entries);
        if groups.contains(dg_id) {
            let k = choose|k: int| 0 <= k < groups.len() && groups[k] == dg_id;
            assert(all[k] == dg_id);
        }
        if !groups.contains(last) {
            assert(all[groups.len() as int] == last);
        } else if last == dg_id {
            assert(all.contains(dg_id));
        }
    }
}

proof fn lemma_asked_of_plan(entries: Seq<PlacementEntry>, i: int, dg_id: u64)
    requires
        0 <= i <= plan_requests(entries).len(),
        block_total(entries) <= u32::MAX,
    ensures
        asked_from(plan_requests(entries), i, dg_id) == (if request_groups(entries).skip(
            i,
        ).contains(dg_id) {
            group_blocks(entries, dg_id)
        } else {
            0
        }),
    decreases plan_requests(entries).len() - i,
{
    let groups = request_groups(entries);
    let requests = plan_requests(entries);
    lemma_blocks_of_groups(entries, dg_id);
    if i < requests.len() {
        lemma_asked_of_plan(entries, i + 1, dg_id);
        assert(requests[i].0 == groups[i]);
        assert(groups.skip(i)[0] == groups[i]);
        let rest = groups.skip(i + 1);
        let here = groups.skip(i);
        if rest.contains(dg_id) {
            let k = choose|k: int| 0 <= k < rest.len() && rest[k] == dg_id;
            assert(groups[i + 1 + k] == dg_id);
            assert(groups[i] != groups[i + 1 + k]);
            assert(here[k + 1] == dg_id);
        } else if here.contains(dg_id) {
            let k = choose|k: int| 0 <= k < here.len() && here[k] == dg_id;
            if k > 0 {
                assert(rest[k - 1] == dg_id);
            }
        }
    } else {
        assert(groups.skip(i).len() == 0);
    }
}

/// The first round asks of every disk-group exactly the blocks of the plan.
pub proof fn law_first_round_accounts(
    owners: Map<(u64, u64), u64>,
    entries: Seq<PlacementEntry>,
)
    requires
        block_total(entries) <= u32::MAX,
    ensures
        accounts_for(owners, entries, Seq::empty(), plan_requests(entries)),
{
    let none = Seq::<Segment>::empty();
    assert forall|dg_id: u64| #[trigger]
        held(owners, none, dg_id) + asked_from(plan_requests(entries), 0, dg_id) == group_blocks(
            entries,
            dg_id,
        ) by {
        lemma_blocks_of_groups(entries, dg_id);
        lemma_asked_of_plan(entries, 0, dg_id);
        assert(request_groups(entries).skip(0) =~= request_groups(entries));
    }
}

/// Every round keeps the account of the plan. So an allocation that ends with
/// nothing pending holds, for every disk-group, exactly the blocks of the plan.
pub proof fn law_rounds_fill_the_plan(
    owners: Map<(u64, u64), u64>,
    entries: Seq<PlacementEntry>,
    attempt: usize,
    segments: Seq<Segment>,
    pending: Seq<(u64, u32)>,
    responses: Seq<Result<Seq<Segment>, Seq<char>>>,
    owner_chunk: ChunkId,
    unit_count: u32,
)
    requires
        responses.len() == pending.len(),
        forall|k: int|
            0 <= k < responses.len() ==> ((#[trigger] responses[k]) matches Ok(got) ==> got.len()
                <= u32::MAX),
        accounts_for(owners, entries, segments, pending),
    ensures
        round_outcome(
            owners,
            entries,
            attempt,
            segments,
            pending,
            responses,
            owner_chunk,
            unit_count,
        ) matches RoundModel::Go { segments: all, pending: rest } ==> {
            &&& accounts_for(owners, entries, all, rest)
            &&& rest.len() == 0 ==> forall|dg_id: u64| #[trigger]
                held(owners, all, dg_id) == group_blocks(entries, dg_id)
        },
{
    match round_outcome(
        owners,
        entries,
        attempt,
        segments,
        pending,
        responses,
        owner_chunk,
        unit_count,
    ) {
        RoundModel::Go { segments: all, pending: rest } => {
            assert forall|dg_id: u64| #[trigger]
                held(owners, all, dg_id) + asked_from(rest, 0, dg_id) == group_blocks(
                    entries,
                    dg_id,
                ) by {
                law_round_accounts(
                    owners,
                    pending,
                    responses,
                    0,
                    owner_chunk,
                    unit_count,
                    segments + handed_out(responses),
                    segments,
                    Seq::empty(),
                    None,
                    dg_id,
                );
                assert(held(owners, segments, dg_id) + asked_from(pending, 0, dg_id)
                    == group_blocks(entries, dg_id));
            }
            if rest.len() == 0 {
                assert forall|dg_id: u64| #[trigger]
                    held(owners, all, dg_id) == group_blocks(entries, dg_id) by {
                    assert(asked_from(rest, 0, dg_id) == 0);
                }
            }
        },
        RoundModel::Fail { .. } => {},
    }
}

} // verus!
