//! Strips of allocated segments, and the plans that lead to them.
use vstd::prelude::*;
use crate::allocator::pool::{owners_of, DiskdbClientPool};
use crate::allocator::rounds::{
    group_entries, groups_of_entries, request_groups, segment_fault, validate_segment,
};
use crate::allocator::{AllocError, AllocErrorModel, StripAllocType, StripBatchSpec};
use crate::arith::{clip_u32, max_u32, sat_add_u32, sat_mul_u32, usize_to_u32};
use crate::selector::ec::{ec_selection, spread_over, EcPlacement};
use crate::selector::mirror::{
    copies_countable, is_first_of_rack, lemma_single_copy, mirror_refusal, mirror_selection,
    orders_racks, MirrorPlacement,
};
use crate::selector::{
    admitted_places, lemma_nodes_of, nodes_of, ConstraintsModel, PlacementConstraints, PlacementEntry,
    PlacementError, PlacementErrorModel, PlacementPlan, PlanModel,
};
use crate::text::text;
use crate::topology::{DiskGroupEntry, TopologySnapshot};
use crate::types::{
    contains_disk, copy_segments, extract_all_segments, strip_models, ChunkId, ChunkStrip, DiskId,
    EcState, EcStrip, FailureDomainPriority, LayoutModel, MirrorStrip, Segment, Strip, StripModel,
    StripType,
};

verus! {

/// The strip of allocated segments.
pub open spec fn assembled_strip(
    segments: Seq<Segment>,
    strip_type: StripAllocType,
    strip_sequence: u32,
    unit_count: u32,
    unit_kb: u32,
    now_ms: u64,
) -> StripModel {
    StripModel {
        chunk_offset: 0,
        strip_sequence,
        unit_kb,
        capacity: match strip_type {
            StripAllocType::Mirror { .. } => clip_u32(unit_count * unit_kb),
            StripAllocType::Ec { data_num, .. } => clip_u32(
                clip_u32(unit_count * unit_kb) * clip_u32(data_num as int),
            ),
        },
        create_ts_ms: now_ms,
        sealed_ts_ms: 0,
        sealed_length: 0,
        strip_type: match strip_type {
            StripAllocType::Mirror { .. } => StripType::Mirror,
            StripAllocType::Ec { .. } => StripType::Ec,
        },
        strip: Some(
            match strip_type {
                StripAllocType::Mirror { .. } => LayoutModel::Mirror { segments },
                StripAllocType::Ec { data_num, code_num } => LayoutModel::Ec {
                    data_num: clip_u32(data_num as int),
                    code_num: clip_u32(code_num as int),
                    ec_state: EcState::NoParity,
                    segments,
                },
            },
        ),
        usage_bitmap: Seq::empty(),
        unavailable_segments: Seq::empty(),
        placement_repair_required: false,
        placement_assessment: None,
        placement_priority: FailureDomainPriority::RackFirst,
    }
}

/// Assembles a strip of allocated segments.
pub fn assemble_strip(
    segments: &[Segment],
    strip_type: StripAllocType,
    strip_sequence: u32,
    unit_count: u32,
    unit_kb: u32,
    now_ms: u64,
) -> (r: ChunkStrip)
    ensures
        r@ == assembled_strip(
            segments@,
            strip_type,
            strip_sequence,
            unit_count,
            unit_kb,
            now_ms,
        ),
{
    let copy = sat_mul_u32(unit_count, unit_kb);
    let (capacity, kind, layout) = match strip_type {
        StripAllocType::Mirror { .. } => (
            copy,
            StripType::Mirror,
            Strip::MirrorStrip(MirrorStrip { segments: copy_segments(segments) }),
        ),
        StripAllocType::Ec { data_num, code_num } => (
            sat_mul_u32(copy, usize_to_u32(data_num)),
            StripType::Ec,
            Strip::EcStrip(
                EcStrip {
                    data_num: usize_to_u32(data_num),
                    code_num: usize_to_u32(code_num),
                    ec_state: EcState::NoParity,
                    segments: copy_segments(segments),
                },
            ),
        ),
    };
    let strip = ChunkStrip {
        chunk_offset: 0,
        strip_sequence,
        unit_kb,
        capacity,
        create_ts_ms: now_ms,
        sealed_ts_ms: 0,
        sealed_length: 0,
        strip_type: kind,
        strip: Some(layout),
        usage_bitmap: Vec::new(),
        unavailable_segments: Vec::new(),
        placement_repair_required: false,
        placement_assessment: None,
        placement_priority: FailureDomainPriority::RackFirst,
    };
    proof {
        assert(strip@.usage_bitmap =~= Seq::<u8>::empty());
        assert(strip@.unavailable_segments =~= Seq::<Segment>::empty());
    }
    strip
}

/// KiB per unit: at least one.
pub fn unit_kb_of(unit_size_bytes: u32) -> (r: u32)
    ensures
        r == (if unit_size_bytes < 1024 {
            1
        } else {
            unit_size_bytes / 1024
        }),
{
    max_u32(unit_size_bytes / 1024, 1)
}

/// What allocating independent strips comes to.
#[derive(Debug)]
pub enum BatchOutcome {
    /// All strips, in sequence order.
    Done(Vec<ChunkStrip>),
    /// Roll the strips back and return the error.
    Fail { rollback: Vec<ChunkStrip>, error: AllocError },
}

/// Model of one strip's allocation.
pub open spec fn strip_result(r: Result<ChunkStrip, AllocError>) -> Result<
    StripModel,
    AllocErrorModel,
> {
    match r {
        Ok(strip) => Ok(strip@),
        Err(error) => Err(error@),
    }
}

/// Models of the strips' allocations.
pub open spec fn strip_results(results: Seq<Result<ChunkStrip, AllocError>>) -> Seq<
    Result<StripModel, AllocErrorModel>,
> {
    Seq::new(results.len(), |i: int| strip_result(results[i]))
}

/// The strips that were allocated, in order.
pub open spec fn allocated_strips(results: Seq<Result<StripModel, AllocErrorModel>>) -> Seq<StripModel>
    decreases results.len(),
{
    if results.len() == 0 {
        Seq::empty()
    } else {
        let front = allocated_strips(results.drop_last());
        match results.last() {
            Ok(strip) => front.push(strip),
            Err(_) => front,
        }
    }
}

/// The error of the first strip that failed.
pub open spec fn first_failure(results: Seq<Result<StripModel, AllocErrorModel>>) -> Option<
    AllocErrorModel,
>
    decreases results.len(),
{
    if results.len() == 0 {
        None
    } else {
        match first_failure(results.drop_last()) {
            Some(error) => Some(error),
            None => match results.last() {
                Ok(_) => None,
                Err(error) => Some(error),
            },
        }
    }
}

/// Collects strips that were allocated independently: any failure rolls back
/// every strip that succeeded, and the first error is returned.
pub fn collect_strips(results: Vec<Result<ChunkStrip, AllocError>>) -> (r: BatchOutcome)
    ensures
        match r {
            BatchOutcome::Done(strips) => first_failure(strip_results(results@)) is None
                && strip_models(strips@) == allocated_strips(strip_results(results@)),
            BatchOutcome::Fail { rollback, error } => first_failure(strip_results(results@))
                == Some(error@) && strip_models(rollback@) == allocated_strips(
                strip_results(results@),
            ),
        },
{
    let ghost models = strip_results(results@);
    let ghost all = results@;
    let mut strips: Vec<ChunkStrip> = Vec::new();
    let mut failure: Option<AllocError> = None;
    assert(strip_models(strips@) =~= Seq::<StripModel>::empty());
    assert(models.take(0) =~= Seq::<Result<StripModel, AllocErrorModel>>::empty());
    for result in iter: results.into_iter()
        invariant
            iter.seq() == all,
            models == strip_results(all),
            strip_models(strips@) == allocated_strips(models.take(iter.index() as int)),
            (match failure {
                Some(error) => Some(error@),
                None => None,
            }) == first_failure(models.take(iter.index() as int)),
    {
        proof {
            let i = iter.index() as int;
            assert(models.take(i + 1).drop_last() =~= models.take(i));
            assert(models.take(i + 1).last() == strip_result(result));
        }
        let ghost before = strips@;
        match result {
            Ok(strip) => {
                let ghost model = strip@;
                strips.push(strip);
                assert(strip_models(strips@) =~= strip_models(before).push(model));
            },
            Err(error) => {
                if failure.is_none() {
                    failure = Some(error);
                }
            },
        }
    }
    assert(models.take(models.len() as int) =~= models);
    match failure {
        Some(error) => BatchOutcome::Fail { rollback: strips, error },
        None => BatchOutcome::Done(strips),
    }
}

/// Sequence of the strip with this position in a batch.
pub fn batch_sequence(spec: &StripBatchSpec, index: u32) -> (r: u32)
    ensures
        r == clip_u32(spec.start_sequence + index),
{
    sat_add_u32(spec.start_sequence, index)
}

/// Model of a planning result.
pub open spec fn plan_result(r: Result<PlacementPlan, AllocError>) -> Result<
    PlanModel,
    AllocErrorModel,
> {
    match r {
        Ok(plan) => Ok(plan@),
        Err(error) => Err(error@),
    }
}

/// What comes next where the strips of a batch are allocated one by one.
#[derive(Debug)]
pub enum StripTurn {
    /// Allocate the strip with this sequence.
    Allocate { sequence: u32 },
    /// The batch is complete.
    Done,
    /// Roll back the strips so far and return the error.
    Fail(AllocError),
}

/// The next turn of a batch of which so many strips are allocated.
pub open spec fn is_next_turn(turn: StripTurn, spec: StripBatchSpec, made: nat) -> bool {
    if made < spec.strip_count {
        turn matches StripTurn::Allocate { sequence } && sequence == clip_u32(
            spec.start_sequence + made,
        )
    } else {
        turn is Done
    }
}

/// The first turn of a batch.
pub fn first_turn(spec: &StripBatchSpec) -> (r: StripTurn)
    ensures
        is_next_turn(r, *spec, 0),
{
    if spec.strip_count == 0 {
        StripTurn::Done
    } else {
        StripTurn::Allocate { sequence: batch_sequence(spec, 0) }
    }
}

/// Takes what the allocation of the next strip of a batch came to. The strips so
/// far are kept: they are the result where the batch is complete, and are rolled
/// back where it fails.
pub fn after_strip(
    spec: &StripBatchSpec,
    strips: &mut Vec<ChunkStrip>,
    made: Result<ChunkStrip, AllocError>,
) -> (r: StripTurn)
    requires
        old(strips)@.len() < spec.strip_count,
    ensures
        match made {
            Ok(strip) => final(strips)@ == old(strips)@.push(strip) && is_next_turn(
                r,
                *spec,
                final(strips)@.len(),
            ),
            Err(error) => final(strips)@ == old(strips)@ && r == StripTurn::Fail(error),
        },
{
    match made {
        Ok(strip) => {
            strips.push(strip);
            let n: u32 = usize_to_u32(strips.len());
            if n < spec.strip_count {
                StripTurn::Allocate { sequence: batch_sequence(spec, n) }
            } else {
                StripTurn::Done
            }
        },
        Err(error) => StripTurn::Fail(error),
    }
}

/// A placement outcome as one of the allocation.
pub open spec fn as_allocation(outcome: Result<PlanModel, PlacementErrorModel>) -> Result<
    PlanModel,
    AllocErrorModel,
> {
    match outcome {
        Ok(plan) => Ok(plan),
        Err(error) => Err(AllocErrorModel::Placement(error)),
    }
}

/// The result is the plan of the strip type, or the reason why there is none:
/// for copies that of a mirror selection with the racks in some order.
pub open spec fn is_strip_plan(
    snap: &TopologySnapshot,
    strip_type: StripAllocType,
    constraints: ConstraintsModel,
    r: Result<PlanModel, AllocErrorModel>,
) -> bool {
    let places = admitted_places(snap.healthy(), constraints);
    match strip_type {
        StripAllocType::Mirror { copy_count } => exists|racks: Seq<u64>|
            orders_racks(racks, places) && r == as_allocation(
                #[trigger] mirror_selection(places, racks, copy_count, constraints),
            ),
        StripAllocType::Ec { data_num, code_num } => r == as_allocation(
            ec_selection(places, data_num, code_num, constraints),
        ),
    }
}

/// The disk-group has fewer disks than blocks are placed on it.
pub open spec fn short_of_disks(snap: &TopologySnapshot, dg_id: u64, blocks: nat) -> bool {
    !snap.disk_groups@.dom().contains((dg_id, 0))
        || snap.disk_groups@[(dg_id, 0)].value.disk_ids@.len() < blocks
}

/// Some disk-group of the entries has fewer disks than entries.
pub open spec fn reuses_disks(snap: &TopologySnapshot, entries: Seq<PlacementEntry>) -> bool {
    exists|i: int|
        0 <= i < request_groups(entries).len() && short_of_disks(
            snap,
            #[trigger] request_groups(entries)[i],
            group_entries(entries, request_groups(entries)[i]),
        )
}

fn needs_disk_reuse(snap: &TopologySnapshot, entries: &[PlacementEntry]) -> (r: bool)
    ensures
        r == reuses_disks(snap, entries@),
{
    let groups = groups_of_entries(entries);
    let mut i: usize = 0;
    while i < groups.len()
        invariant
            i <= groups.len(),
            groups@ == request_groups(entries@),
            forall|j: int|
                0 <= j < i ==> !short_of_disks(
                    snap,
                    #[trigger] request_groups(entries@)[j],
                    group_entries(entries@, request_groups(entries@)[j]),
                ),
        decreases groups.len() - i,
    {
        let dg_id: u64 = groups[i];
        let mut blocks: usize = 0;
        let mut k: usize = 0;
        assert(entries@.take(0) =~= Seq::<PlacementEntry>::empty());
        while k < entries.len()
            invariant
                k <= entries.len(),
                blocks <= k,
                blocks == group_entries(entries@.take(k as int), dg_id),
            decreases entries.len() - k,
        {
            proof {
                assert(entries@.take(k + 1).drop_last() =~= entries@.take(k as int));
                assert(entries@.take(k + 1).last() == entries@[k as int]);
            }
            if entries[k].disk_group_id == dg_id {
                blocks = blocks + 1;
            }
            k = k + 1;
        }
        assert(entries@.take(k as int) =~= entries@);
        let short = match snap.disk_group(dg_id) {
            Some(group) => group.value.disk_ids.len() < blocks,
            None => true,
        };
        if short {
            assert(short_of_disks(
                snap,
                request_groups(entries@)[i as int],
                group_entries(entries@, request_groups(entries@)[i as int]),
            ));
            return true;
        }
        i = i + 1;
    }
    false
}

/// Plan of a conversion group: the erasure-coded blocks first, then the further
/// copies of each mirrored strip.
#[derive(Debug)]
pub struct ConversionPlan {
    pub entries: Vec<PlacementEntry>,
    pub safe_mode: bool,
    /// Some disk-group has to put two blocks on one disk.
    pub reuse_disks: bool,
}

/// The constraints of the further copies of a strip: its first copy's node is
/// excluded.
pub open spec fn extra_constraints(constraints: ConstraintsModel, node_id: u64) -> ConstraintsModel {
    ConstraintsModel { exclude_nodes: constraints.exclude_nodes.push(node_id), ..constraints }
}

/// Where the further copies of a strip may stand.
pub open spec fn extra_places(
    snap: &TopologySnapshot,
    constraints: ConstraintsModel,
    node_id: u64,
) -> Seq<crate::topology::DiskLocation> {
    admitted_places(snap.healthy(), extra_constraints(constraints, node_id))
}

/// The entries are `extra` further copies for a strip whose first copy stands
/// on the node: those of a mirror selection with the racks in some order.
pub open spec fn are_further_copies(
    snap: &TopologySnapshot,
    constraints: ConstraintsModel,
    node_id: u64,
    extra: usize,
    entries: Seq<PlacementEntry>,
) -> bool {
    let places = extra_places(snap, constraints, node_id);
    &&& spread_over(places, entries, 1)
    &&& exists|racks: Seq<u64>|
        orders_racks(racks, places) && ((#[trigger] mirror_selection(
            places,
            racks,
            extra,
            extra_constraints(constraints, node_id),
        )) matches Ok(plan) && plan.entries == entries)
}

/// Why the further copies of a strip whose first copy stands on the node cannot
/// be placed; none where they can.
pub open spec fn extra_refusal(
    snap: &TopologySnapshot,
    constraints: ConstraintsModel,
    node_id: u64,
    extra: usize,
) -> Option<PlacementErrorModel> {
    mirror_refusal(extra_places(snap, constraints, node_id), extra)
}

/// The further copies of the strip at `at` are refused for this reason, and
/// those of the strips before it can be placed.
pub open spec fn extras_refused_at(
    snap: &TopologySnapshot,
    constraints: ConstraintsModel,
    blocks: Seq<PlacementEntry>,
    extra: usize,
    at: int,
    error: PlacementErrorModel,
) -> bool {
    &&& extra_refusal(snap, constraints, blocks[at].node_id, extra) == Some(error)
    &&& forall|j: int|
        0 <= j < at ==> extra_refusal(snap, constraints, (#[trigger] blocks[j]).node_id, extra) is None
}

/// A conversion group is refused for this reason.
pub open spec fn is_conversion_refusal(
    snap: &TopologySnapshot,
    data_num: usize,
    code_num: usize,
    copy_count: usize,
    constraints: ConstraintsModel,
    error: PlacementErrorModel,
) -> bool {
    if copy_count == 0 {
        error == PlacementErrorModel::InvalidShape(
            "conversion mirror copy count must be nonzero"@,
        )
    } else {
        match ec_selection(
            admitted_places(snap.healthy(), constraints),
            data_num,
            code_num,
            constraints,
        ) {
            Err(refusal) => error == refusal,
            Ok(plan) => if reuses_disks(snap, plan.entries) {
                error == PlacementErrorModel::InsufficientCapacity
            } else {
                copy_count > 1 && exists|at: int|
                    0 <= at < data_num && #[trigger] extras_refused_at(
                        snap,
                        constraints,
                        plan.entries,
                        (copy_count - 1) as usize,
                        at,
                        error,
                    )
            },
        }
    }
}

/// The entries are the erasure-coded blocks followed by `extra` further copies
/// for each of the first `n`, each on another node than its first copy and than
/// the other further copies.
pub open spec fn is_conversion_layout(
    snap: &TopologySnapshot,
    constraints: ConstraintsModel,
    blocks: Seq<PlacementEntry>,
    extra: usize,
    n: int,
    entries: Seq<PlacementEntry>,
) -> bool {
    &&& entries.len() == blocks.len() + n * extra
    &&& entries.take(blocks.len() as int) == blocks
    &&& forall|i: int|
        0 <= i < n ==> are_further_copies(
            snap,
            constraints,
            (#[trigger] blocks[i]).node_id,
            extra,
            entries.subrange(
                blocks.len() + i * extra,
                blocks.len() + i * extra + extra,
            ),
        )
}

proof fn lemma_fewer_nodes(some: Seq<u64>, all: Seq<u64>)
    requires
        crate::selector::ascending(some),
        crate::selector::ascending(all),
        forall|x: u64| #[trigger] some.contains(x) ==> all.contains(x),
    ensures
        some.len() <= all.len(),
{
    assert(some.no_duplicates());
    assert(all.no_duplicates());
    some.unique_seq_to_set();
    all.unique_seq_to_set();
    assert(some.to_set().subset_of(all.to_set()));
    vstd::set_lib::lemma_len_subset(some.to_set(), all.to_set());
}

proof fn lemma_extra_admitted(
    groups: Seq<DiskGroupEntry>,
    constraints: ConstraintsModel,
    node_id: u64,
)
    ensures
        forall|i: int|
            0 <= i < admitted_places(groups, extra_constraints(constraints, node_id)).len()
                ==> admitted_places(groups, constraints).contains(
                #[trigger] admitted_places(groups, extra_constraints(constraints, node_id))[i],
            ),
    decreases groups.len(),
{
    if groups.len() > 0 {
        let narrow = extra_constraints(constraints, node_id);
        lemma_extra_admitted(groups.drop_last(), constraints, node_id);
        let inner = admitted_places(groups.drop_last(), narrow);
        let outer = admitted_places(groups.drop_last(), constraints);
        let some = admitted_places(groups, narrow);
        let all = admitted_places(groups, constraints);
        let place = groups.last().spec_place();
        if narrow.admits(place) {
            assert(constraints.admits(place)) by {
                if constraints.exclude_nodes.contains(place.node_id) {
                    let k = choose|k: int|
                        0 <= k < constraints.exclude_nodes.len() && constraints.exclude_nodes[k]
                            == place.node_id;
                    assert(narrow.exclude_nodes[k] == place.node_id);
                }
            }
        }
        assert forall|i: int| 0 <= i < some.len() implies all.contains(#[trigger] some[i]) by {
            if i < inner.len() {
                assert(some[i] == inner[i]);
                assert(outer.contains(inner[i]));
                let k = choose|k: int| 0 <= k < outer.len() && outer[k] == inner[i];
                assert(all[k] == some[i]);
            } else {
                assert(all[all.len() - 1] == some[i]);
            }
        }
    }
}

/// The further copies of a strip have no more nodes to go to than the strip.
proof fn lemma_extra_nodes(snap: &TopologySnapshot, constraints: ConstraintsModel, node_id: u64)
    ensures
        nodes_of(extra_places(snap, constraints, node_id)).len() <= nodes_of(
            admitted_places(snap.healthy(), constraints),
        ).len(),
{
    let some = extra_places(snap, constraints, node_id);
    let all = admitted_places(snap.healthy(), constraints);
    lemma_extra_admitted(snap.healthy(), constraints, node_id);
    lemma_nodes_of(some);
    lemma_nodes_of(all);
    assert forall|x: u64| #[trigger] nodes_of(some).contains(x) implies nodes_of(all).contains(x) by {
        let i = choose|i: int| 0 <= i < some.len() && (#[trigger] some[i]).node_id == x;
        assert(all.contains(some[i]));
        let k = choose|k: int| 0 <= k < all.len() && all[k] == some[i];
        assert(nodes_of(all).contains(all[k].node_id));
    }
    lemma_fewer_nodes(nodes_of(some), nodes_of(all));
}

proof fn lemma_layout_step(
    snap: &TopologySnapshot,
    constraints: ConstraintsModel,
    blocks: Seq<PlacementEntry>,
    extra: usize,
    n: int,
    entries: Seq<PlacementEntry>,
    more: Seq<PlacementEntry>,
)
    requires
        0 <= n < blocks.len(),
        is_conversion_layout(snap, constraints, blocks, extra, n, entries),
        more.len() == extra,
        are_further_copies(snap, constraints, blocks[n].node_id, extra, more),
    ensures
        is_conversion_layout(snap, constraints, blocks, extra, n + 1, entries + more),
{
    let next = entries + more;
    let base = blocks.len();
    assert((n + 1) * extra == n * extra + extra) by (nonlinear_arith);
    assert(n * extra >= 0) by (nonlinear_arith)
        requires
            n >= 0,
            extra >= 0,
    ;
    assert(next.take(base as int) =~= blocks) by {
        assert(entries.take(base as int) == blocks);
        assert(next.take(base as int) =~= entries.take(base as int));
    }
    assert forall|i: int| 0 <= i < n + 1 implies are_further_copies(
        snap,
        constraints,
        (#[trigger] blocks[i]).node_id,
        extra,
        next.subrange(base + i * extra, base + i * extra + extra),
    ) by {
        assert(i * extra >= 0) by (nonlinear_arith)
            requires
                i >= 0,
                extra >= 0,
        ;
        if i < n {
            assert(i * extra + extra <= n * extra) by (nonlinear_arith)
                requires
                    i + 1 <= n,
                    extra >= 0,
            ;
            assert(next.subrange(base + i * extra, base + i * extra + extra) =~= entries.subrange(
                base + i * extra,
                base + i * extra + extra,
            ));
        } else {
            assert(next.subrange(base + n * extra, base + n * extra + extra) =~= more);
        }
    }
}

/// Segments of a conversion group.
#[derive(Debug)]
pub struct ConversionGroupAllocation {
    pub mirrors: Vec<ChunkStrip>,
    pub parity_segments: Vec<Segment>,
    pub preferred_survivors: Vec<u32>,
}

/// The copies of the mirrored strip at `index`: the block of the erasure code,
/// then its further copies.
pub open spec fn conversion_copies(
    segments: Seq<Segment>,
    data_num: int,
    code_num: int,
    copy_count: int,
    index: int,
) -> Seq<Segment> {
    let start = data_num + code_num + index * (copy_count - 1);
    seq![segments[index]] + segments.subrange(start, start + copy_count - 1)
}

/// Where a single replacement segment goes.
pub open spec fn unusable_group(group: DiskGroupEntry, exclude_disk_ids: Seq<DiskId>) -> bool {
    forall|i: int|
        0 <= i < group.value.disk_ids@.len() ==> exclude_disk_ids.contains(
            #[trigger] group.value.disk_ids@[i],
        )
}

/// The disk-groups without a usable disk, in order.
pub open spec fn unusable_groups(groups: Seq<DiskGroupEntry>, exclude_disk_ids: Seq<DiskId>) -> Seq<u64>
    decreases groups.len(),
{
    if groups.len() == 0 {
        Seq::empty()
    } else {
        let front = unusable_groups(groups.drop_last(), exclude_disk_ids);
        if unusable_group(groups.last(), exclude_disk_ids) {
            front.push(groups.last().dg_id)
        } else {
            front
        }
    }
}

/// The constraints of a replacement segment: disk-groups without a usable disk
/// are excluded too.
pub open spec fn replacement_constraints_of(
    snap: &TopologySnapshot,
    constraints: ConstraintsModel,
    exclude_disk_ids: Seq<DiskId>,
) -> ConstraintsModel {
    ConstraintsModel {
        exclude_disk_groups: constraints.exclude_disk_groups + unusable_groups(
            snap.disk_groups.order(),
            exclude_disk_ids,
        ),
        ..constraints
    }
}

/// What the response to a replacement request comes to.
#[derive(Debug)]
pub enum ReplacementOutcome {
    Done(Segment),
    /// Free the segments and return the error.
    Fail { free: Vec<Segment>, error: AllocError },
}

/// Placement of strips and checks of the segments that come back.
pub struct ChunkAllocator {
    pub pool: DiskdbClientPool,
}

fn is_unusable(group: &DiskGroupEntry, exclude_disk_ids: &[DiskId]) -> (r: bool)
    ensures
        r == unusable_group(*group, exclude_disk_ids@),
{
    let disks = &group.value.disk_ids;
    let mut i: usize = 0;
    while i < disks.len()
        invariant
            i <= disks.len(),
            disks@ == group.value.disk_ids@,
            forall|j: int|
                0 <= j < i ==> exclude_disk_ids@.contains(#[trigger] group.value.disk_ids@[j]),
        decreases disks.len() - i,
    {
        if !contains_disk(exclude_disk_ids, disks[i]) {
            assert(!exclude_disk_ids@.contains(group.value.disk_ids@[i as int]));
            return false;
        }
        i = i + 1;
    }
    true
}

impl ChunkAllocator {
    /// An allocator over a pool.
    pub fn new(pool: DiskdbClientPool) -> (r: Self)
        ensures
            r.pool == pool,
    {
        ChunkAllocator { pool }
    }

    /// The pool of disk services.
    pub fn pool(&self) -> (r: &DiskdbClientPool)
        ensures
            *r == self.pool,
    {
        &self.pool
    }

    /// Plan a single strip.
    pub fn plan_strip(
        &mut self,
        snap: &TopologySnapshot,
        strip_type: StripAllocType,
        constraints: &PlacementConstraints,
    ) -> (r: Result<PlacementPlan, AllocError>)
        requires
            match strip_type {
                StripAllocType::Mirror { copy_count } => copies_countable(
                    admitted_places(snap.healthy(), constraints@),
                    copy_count,
                ),
                StripAllocType::Ec { data_num, code_num } => data_num + code_num <= u32::MAX,
            },
        ensures
            is_strip_plan(snap, strip_type, constraints@, plan_result(r)),
            final(self).pool.owners() == owners_of(snap.disk_groups.order()),
            final(self).pool.routes() == old(self).pool.routes(),
    {
        self.pool.update_disk_id_lookup(snap.disk_groups());
        match strip_type {
            StripAllocType::Mirror { copy_count } => match MirrorPlacement::select(
                snap,
                copy_count,
                constraints,
            ) {
                Ok(plan) => Ok(plan),
                Err(error) => Err(AllocError::Placement(error)),
            },
            StripAllocType::Ec { data_num, code_num } => match EcPlacement::select(
                snap,
                data_num,
                code_num,
                constraints,
            ) {
                Ok(plan) => Ok(plan),
                Err(error) => Err(AllocError::Placement(error)),
            },
        }
    }

    /// Plan the mirrors and the parity of a later conversion together.
    pub fn plan_conversion_group(
        &mut self,
        snap: &TopologySnapshot,
        data_num: usize,
        code_num: usize,
        copy_count: usize,
        constraints: &PlacementConstraints,
    ) -> (r: Result<ConversionPlan, AllocError>)
        requires
            data_num + code_num <= u32::MAX,
            copy_count <= u32::MAX || nodes_of(
                admitted_places(snap.healthy(), constraints@),
            ).len() < copy_count - 1,
        ensures
            final(self).pool.routes() == old(self).pool.routes(),
            final(self).pool.owners() == (if copy_count == 0 {
                old(self).pool.owners()
            } else {
                owners_of(snap.disk_groups.order())
            }),
            match r {
                Ok(plan) => copy_count > 0 && (ec_selection(
                    admitted_places(snap.healthy(), constraints@),
                    data_num,
                    code_num,
                    constraints@,
                ) matches Ok(ec) && {
                    &&& !reuses_disks(snap, ec.entries)
                    &&& copy_count > 1 ==> forall|j: int|
                        0 <= j < data_num ==> extra_refusal(
                            snap,
                            constraints@,
                            (#[trigger] ec.entries[j]).node_id,
                            (copy_count - 1) as usize,
                        ) is None
                    &&& is_conversion_layout(
                        snap,
                        constraints@,
                        ec.entries,
                        (copy_count - 1) as usize,
                        if copy_count == 1 {
                            0
                        } else {
                            data_num as int
                        },
                        plan.entries@,
                    )
                    &&& plan.safe_mode == ec.safe_mode
                    &&& plan.reuse_disks == reuses_disks(snap, plan.entries@)
                }),
                Err(error) => error@ matches AllocErrorModel::Placement(refusal)
                    && is_conversion_refusal(
                    snap,
                    data_num,
                    code_num,
                    copy_count,
                    constraints@,
                    refusal,
                ),
            },
    {
        if copy_count < 1 {
            return Err(
                AllocError::Placement(
                    PlacementError::InvalidShape(
                        text("conversion mirror copy count must be nonzero"),
                    ),
                ),
            );
        }
        self.pool.update_disk_id_lookup(snap.disk_groups());
        let plan = match EcPlacement::select(snap, data_num, code_num, constraints) {
            Ok(plan) => plan,
            Err(error) => {
                return Err(AllocError::Placement(error));
            },
        };
        if needs_disk_reuse(snap, &plan.entries) {
            return Err(AllocError::Placement(PlacementError::InsufficientCapacity));
        }
        let ghost blocks = plan@.entries;
        proof {
            crate::selector::ec::lemma_ec_selection_len(
                admitted_places(snap.healthy(), constraints@),
                data_num,
                code_num,
                constraints@,
            );
        }
        let safe_mode = plan.safe_mode;
        let mut entries = plan.entries;
        let extra: usize = copy_count - 1;
        assert(is_conversion_layout(snap, constraints@, blocks, extra, 0, entries@)) by {
            assert(entries@.take(blocks.len() as int) =~= blocks);
        }
        if extra > 0 {
            let mut i: usize = 0;
            while i < data_num
                invariant
                    i <= data_num,
                    extra > 0,
                    copy_count <= u32::MAX || nodes_of(
                        admitted_places(snap.healthy(), constraints@),
                    ).len() < extra,
                    data_num <= blocks.len(),
                    is_conversion_layout(snap, constraints@, blocks, extra, i as int, entries@),
                    forall|j: int|
                        0 <= j < i ==> extra_refusal(
                            snap,
                            constraints@,
                            (#[trigger] blocks[j]).node_id,
                            extra,
                        ) is None,
                    self.pool.owners() == owners_of(snap.disk_groups.order()),
                    self.pool.routes() == old(self).pool.routes(),
                    copy_count == extra + 1,
                    !reuses_disks(snap, blocks),
                    ec_selection(
                        admitted_places(snap.healthy(), constraints@),
                        data_num,
                        code_num,
                        constraints@,
                    ) matches Ok(ec) && ec.entries == blocks && ec.safe_mode == safe_mode,
                decreases data_num - i,
            {
                proof {
                    assert(i * extra >= 0) by (nonlinear_arith)
                        requires
                            i >= 0,
                            extra >= 0,
                    ;
                    assert(entries@[i as int] == blocks[i as int]) by {
                        assert(entries@.take(blocks.len() as int)[i as int] == blocks[i as int]);
                    }
                }
                let node_id: u64 = entries[i].node_id;
                let mirror_constraints = constraints.clone().exclude_node(node_id);
                assert(mirror_constraints@ == extra_constraints(constraints@, node_id));
                proof {
                    lemma_extra_nodes(snap, constraints@, node_id);
                }
                match MirrorPlacement::select(snap, extra, &mirror_constraints) {
                    Ok(extras) => {
                        let ghost before = entries@;
                        let ghost more = extras@.entries;
                        assert(are_further_copies(snap, constraints@, node_id, extra, more));
                        let mut further = extras.entries;
                        entries.append(&mut further);
                        proof {
                            lemma_layout_step(
                                snap,
                                constraints@,
                                blocks,
                                extra,
                                i as int,
                                before,
                                more,
                            );
                            assert(entries@ =~= before + more);
                        }
                    },
                    Err(error) => {
                        assert(extras_refused_at(
                            snap,
                            constraints@,
                            blocks,
                            extra,
                            i as int,
                            error@,
                        ));
                        assert(extra == (copy_count - 1) as usize);
                        assert(is_conversion_refusal(
                            snap,
                            data_num,
                            code_num,
                            copy_count,
                            constraints@,
                            error@,
                        ));
                        return Err(AllocError::Placement(error));
                    },
                }
                i = i + 1;
            }
        }
        let reuse_disks = needs_disk_reuse(snap, &entries);
        Ok(ConversionPlan { entries, safe_mode, reuse_disks })
    }

    /// Assemble the mirrors and the parity of a conversion group from segments
    /// in the order of its plan.
    pub fn assemble_conversion_group(
        segments: &[Segment],
        unit_count: u32,
        unit_kb: u32,
        start_sequence: u32,
        data_num: usize,
        code_num: usize,
        copy_count: usize,
        now_ms: u64,
    ) -> (r: ConversionGroupAllocation)
        requires
            copy_count >= 1,
            segments@.len() == data_num + code_num + data_num * (copy_count - 1),
        ensures
            strip_models(r.mirrors@) == Seq::new(
                data_num as nat,
                |i: int|
                    assembled_strip(
                        conversion_copies(
                            segments@,
                            data_num as int,
                            code_num as int,
                            copy_count as int,
                            i,
                        ),
                        StripAllocType::Mirror { copy_count },
                        clip_u32(start_sequence + clip_u32(i)),
                        unit_count,
                        unit_kb,
                        now_ms,
                    ),
            ),
            r.parity_segments@ == segments@.subrange(data_num as int, data_num + code_num),
            r.preferred_survivors@ == Seq::new(data_num as nat, |i: int| 0u32),
    {
        let extra: usize = copy_count - 1;
        let total: usize = segments.len();
        let ghost want = Seq::new(
            data_num as nat,
            |i: int|
                assembled_strip(
                    conversion_copies(
                        segments@,
                        data_num as int,
                        code_num as int,
                        copy_count as int,
                        i,
                    ),
                    StripAllocType::Mirror { copy_count },
                    clip_u32(start_sequence + clip_u32(i)),
                    unit_count,
                    unit_kb,
                    now_ms,
                ),
        );
        proof {
            assert(data_num * (copy_count - 1) >= 0) by (nonlinear_arith)
                requires
                    data_num >= 0,
                    copy_count >= 1,
            ;
        }
        let mut mirrors: Vec<ChunkStrip> = Vec::new();
        let mut survivors: Vec<u32> = Vec::new();
        let mut start: usize = data_num + code_num;
        let mut i: usize = 0;
        while i < data_num
            invariant
                i <= data_num,
                total == segments@.len(),
                extra == copy_count - 1,
                total == data_num + code_num + data_num * extra,
                start == data_num + code_num + i * extra,
                want.len() == data_num,
                forall|j: int|
                    0 <= j < data_num ==> #[trigger] want[j] == assembled_strip(
                        conversion_copies(
                            segments@,
                            data_num as int,
                            code_num as int,
                            copy_count as int,
                            j,
                        ),
                        StripAllocType::Mirror { copy_count },
                        clip_u32(start_sequence + clip_u32(j)),
                        unit_count,
                        unit_kb,
                        now_ms,
                    ),
                mirrors@.len() == i,
                forall|j: int| 0 <= j < i ==> (#[trigger] mirrors@[j])@ == want[j],
                survivors@ == Seq::new(i as nat, |j: int| 0u32),
            decreases data_num - i,
        {
            proof {
                assert(i * extra + extra <= data_num * extra) by (nonlinear_arith)
                    requires
                        i + 1 <= data_num,
                        extra >= 0,
                ;
                assert((i + 1) * extra == i * extra + extra) by (nonlinear_arith);
                assert(i * extra >= 0) by (nonlinear_arith)
                    requires
                        i >= 0,
                        extra >= 0,
                ;
            }
            let mut copies: Vec<Segment> = Vec::new();
            copies.push(segments[i]);
            let mut k: usize = 0;
            while k < extra
                invariant
                    k <= extra,
                    start + extra <= total,
                    total == segments@.len(),
                    copies@ == seq![segments@[i as int]] + segments@.subrange(
                        start as int,
                        start + k,
                    ),
                decreases extra - k,
            {
                assert(segments@.subrange(start as int, start + k + 1) =~= segments@.subrange(
                    start as int,
                    start + k,
                ).push(segments@[start + k]));
                copies.push(segments[start + k]);
                k = k + 1;
                assert(copies@ =~= seq![segments@[i as int]] + segments@.subrange(
                    start as int,
                    start + k,
                ));
            }
            let strip = assemble_strip(
                &copies,
                StripAllocType::Mirror { copy_count },
                sat_add_u32(start_sequence, usize_to_u32(i)),
                unit_count,
                unit_kb,
                now_ms,
            );
            assert(strip@ == want[i as int]);
            mirrors.push(strip);
            survivors.push(0);
            start = start + extra;
            i = i + 1;
            assert(survivors@ =~= Seq::new(i as nat, |j: int| 0u32));
        }
        assert(strip_models(mirrors@) =~= want);
        let mut parity: Vec<Segment> = Vec::new();
        let mut p: usize = data_num;
        while p < data_num + code_num
            invariant
                data_num <= p <= data_num + code_num,
                data_num + code_num <= segments@.len(),
                total == segments@.len(),
                parity@ == segments@.subrange(data_num as int, p as int),
            decreases data_num + code_num - p,
        {
            assert(segments@.subrange(data_num as int, p + 1) =~= segments@.subrange(
                data_num as int,
                p as int,
            ).push(segments@[p as int]));
            parity.push(segments[p]);
            p = p + 1;
        }
        ConversionGroupAllocation {
            mirrors,
            parity_segments: parity,
            preferred_survivors: survivors,
        }
    }

    /// The segments that rolling strips back frees.
    pub fn rollback_strips(strips: &[ChunkStrip]) -> (r: Vec<Segment>)
        ensures
            r@ == crate::types::all_segments(strip_models(strips@)),
    {
        extract_all_segments(strips)
    }

    /// The segments that rolling a conversion group back frees.
    pub fn rollback_conversion_group(mirrors: &[ChunkStrip], parity_segments: &[Segment]) -> (r: Vec<
        Segment,
    >)
        ensures
            r@ == crate::types::all_segments(strip_models(mirrors@)) + parity_segments@,
    {
        let mut segments = extract_all_segments(mirrors);
        let mut parity = copy_segments(parity_segments);
        segments.append(&mut parity);
        segments
    }

    /// Choose where a single replacement segment goes.
    pub fn plan_replacement_segment(
        &mut self,
        snap: &TopologySnapshot,
        constraints: &PlacementConstraints,
        exclude_disk_ids: &[DiskId],
    ) -> (r: Result<PlacementEntry, AllocError>)
        ensures
            final(self).pool.owners() == owners_of(snap.disk_groups.order()),
            final(self).pool.routes() == old(self).pool.routes(),
            ({
                let places = admitted_places(
                    snap.healthy(),
                    replacement_constraints_of(snap, constraints@, exclude_disk_ids@),
                );
                match r {
                    Ok(entry) => is_first_of_rack(places, entry),
                    Err(error) => places.len() == 0 && error@ == AllocErrorModel::Placement(
                        PlacementErrorModel::NoHealthyDiskGroups,
                    ),
                }
            }),
    {
        self.pool.update_disk_id_lookup(snap.disk_groups());
        let mut narrowed = constraints.clone();
        let groups = snap.disk_groups();
        let mut i: usize = 0;
        assert(groups@.take(0) =~= Seq::<DiskGroupEntry>::empty());
        assert(narrowed@.exclude_disk_groups =~= constraints@.exclude_disk_groups
            + unusable_groups(groups@.take(0), exclude_disk_ids@));
        while i < groups.len()
            invariant
                i <= groups.len(),
                groups@ == snap.disk_groups.order(),
                narrowed@ == (ConstraintsModel {
                    exclude_disk_groups: constraints@.exclude_disk_groups + unusable_groups(
                        groups@.take(i as int),
                        exclude_disk_ids@,
                    ),
                    ..constraints@
                }),
            decreases groups.len() - i,
        {
            proof {
                assert(groups@.take(i + 1).drop_last() =~= groups@.take(i as int));
                assert(groups@.take(i + 1).last() == groups@[i as int]);
            }
            if is_unusable(&groups[i], exclude_disk_ids) {
                let ghost before = narrowed@;
                narrowed = narrowed.exclude_disk_group(groups[i].dg_id);
                assert(narrowed@.exclude_disk_groups =~= constraints@.exclude_disk_groups
                    + unusable_groups(groups@.take(i + 1), exclude_disk_ids@));
            }
            i = i + 1;
        }
        assert(groups@.take(i as int) =~= groups@);
        match MirrorPlacement::select(snap, 1, &narrowed) {
            Ok(plan) => {
                proof {
                    let places = admitted_places(snap.healthy(), narrowed@);
                    let racks = choose|racks: Seq<u64>|
                        orders_racks(racks, places) && Ok::<PlanModel, PlacementErrorModel>(plan@)
                            == #[trigger] mirror_selection(places, racks, 1, narrowed@);
                    lemma_single_copy(places, racks, narrowed@);
                }
                Ok(plan.entries[0])
            },
            Err(error) => Err(AllocError::Placement(error)),
        }
    }

    /// Check the response to a replacement request.
    pub fn check_replacement_segment(
        &self,
        segments: Vec<Segment>,
        dg_id: u64,
        owner_chunk: &ChunkId,
        unit_count: u32,
    ) -> (r: ReplacementOutcome)
        ensures
            match r {
                ReplacementOutcome::Done(segment) => segments@ == seq![segment] && segment_fault(
                    self.pool.owners(),
                    segment,
                    dg_id,
                    *owner_chunk,
                    unit_count,
                ) is None,
                ReplacementOutcome::Fail { free, error } => free@ == segments@ && error@ == (
                if segments@.len() != 1 {
                    AllocErrorModel::PartialAllocation {
                        requested: 1,
                        got: clip_u32(segments@.len() as int),
                    }
                } else {
                    AllocErrorModel::InvalidResponse {
                        dg_id,
                        reason: segment_fault(
                            self.pool.owners(),
                            segments@[0],
                            dg_id,
                            *owner_chunk,
                            unit_count,
                        )->0,
                    }
                }) && (segments@.len() == 1 ==> segment_fault(
                    self.pool.owners(),
                    segments@[0],
                    dg_id,
                    *owner_chunk,
                    unit_count,
                ) is Some),
            },
    {
        let n: usize = segments.len();
        if n != 1 {
            return ReplacementOutcome::Fail {
                free: segments,
                error: AllocError::PartialAllocation { requested: 1, got: usize_to_u32(n) },
            };
        }
        match validate_segment(&self.pool, &segments[0], dg_id, owner_chunk, unit_count) {
            Some(reason) => ReplacementOutcome::Fail {
                free: segments,
                error: AllocError::InvalidResponse { dg_id, reason },
            },
            None => {
                let segment = segments[0];
                assert(segments@ =~= seq![segment]);
                ReplacementOutcome::Done(segment)
            },
        }
    }
}

} // verus!
