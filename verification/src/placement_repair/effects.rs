//! What moves of fragments are for, told on the places of the fragments.
use vstd::prelude::*;
use crate::allocator::AllocErrorModel;
use crate::lifecycle::error::LifecycleErrorModel;
use crate::placement_rebalance::{
    candidates_of, first_in_group, is_emptiest_target, is_fullest, lasted, moved_segments,
    observed_after, proper, skewed_pair, usages_of, used_percent, GroupUsage,
    PlacementRebalanceConfig,
};
use crate::placement_repair::{
    admitted, best_group_id, first_over_budget, full_disks, full_nodes, full_racks, in_group,
    in_rack, law_best_group_exists, located_places, may_take, on_disk, on_node, over_budget,
    payload_of, place_of, placement_repair_task, source_of, PlacementRepairModel,
    PlacementRepairTaskPayload,
};
use crate::selector::PlacementErrorModel;
use crate::task::{ChunkTaskState, TaskKind, TaskVersions};
use crate::topology::{DiskGroupEntry, DiskLocation, TopologySnapshot};
use crate::types::{ChunkId, DiskId, FailureDomainPriority, LayoutModel, Segment, StripModel};

verus! {

/// The repair of a marked strip is about this strip of this chunk, keeps its
/// priority, and is for exactly the domains that are not protected.
pub proof fn law_placement_repair_is_for_what_is_unprotected(chunk_id: ChunkId, strip: StripModel)
    ensures
        payload_of(chunk_id, strip) is Ok <==> strip.placement_assessment is Some,
        payload_of(chunk_id, strip) matches Ok(payload) ==> {
            let assessment = strip.placement_assessment->0;
            &&& payload.chunk_id == chunk_id
            &&& payload.strip_sequence == strip.strip_sequence
            &&& payload.placement_priority == strip.placement_priority
            &&& payload.repair_rack != assessment.rack_protected
            &&& payload.repair_node != assessment.node_protected
            &&& payload.repair_disk != assessment.disk_protected
            &&& payload.target is None
        },
{
}

proof fn lemma_admitted(chunk_id: ChunkId, strips: Seq<StripModel>, n: int)
    requires
        0 <= n <= strips.len() <= usize::MAX,
    ensures
        ({
            let plans = admitted(chunk_id, strips, n).0;
            &&& forall|i: int|
                0 <= i < plans.len() ==> {
                    let at = (#[trigger] plans[i]).strip_index as int;
                    &&& at < n
                    &&& strips[at].placement_repair_required
                    &&& strips[at].strip matches Some(LayoutModel::Ec { .. })
                    &&& plans[i].payload.chunk_id == chunk_id
                    &&& plans[i].payload.strip_sequence == strips[at].strip_sequence
                }
            &&& forall|i: int, j: int|
                0 <= i < j < plans.len() ==> (#[trigger] plans[i]).strip_index < (
                #[trigger] plans[j]).strip_index
        }),
    decreases n,
{
    if n > 0 {
        lemma_admitted(chunk_id, strips, n - 1);
    }
}

proof fn lemma_marked_is_admitted(
    chunk_id: ChunkId,
    strips: Seq<StripModel>,
    n: int,
    k: int,
) -> (i: int)
    requires
        0 <= k < n <= strips.len() <= usize::MAX,
        strips[k].placement_repair_required,
        strips[k].strip matches Some(LayoutModel::Ec { .. }),
        admitted(chunk_id, strips, n).1 is None,
    ensures
        0 <= i < admitted(chunk_id, strips, n).0.len(),
        admitted(chunk_id, strips, n).0[i].strip_index == k,
    decreases n,
{
    if k < n - 1 {
        lemma_marked_is_admitted(chunk_id, strips, n - 1, k)
    } else {
        admitted(chunk_id, strips, n).0.len() - 1
    }
}

proof fn lemma_admission_fails(chunk_id: ChunkId, strips: Seq<StripModel>, n: int)
    requires
        0 <= n <= strips.len(),
    ensures
        admitted(chunk_id, strips, n).1 is Some <==> exists|k: int|
            0 <= k < n && (#[trigger] strips[k]).placement_repair_required && (
            strips[k].strip matches Some(LayoutModel::Ec { .. }))
                && strips[k].placement_assessment is None,
    decreases n,
{
    if n > 0 {
        lemma_admission_fails(chunk_id, strips, n - 1);
        let before = admitted(chunk_id, strips, n - 1).1;
        let error = admitted(chunk_id, strips, n).1;
        if before is None && error is Some {
            assert(strips[n - 1].placement_assessment is None);
        }
        if exists|k: int|
            0 <= k < n && (#[trigger] strips[k]).placement_repair_required && (
            strips[k].strip matches Some(LayoutModel::Ec { .. }))
                && strips[k].placement_assessment is None {
            let k = choose|k: int|
                0 <= k < n && (#[trigger] strips[k]).placement_repair_required && (
                strips[k].strip matches Some(LayoutModel::Ec { .. }))
                    && strips[k].placement_assessment is None;
            if k < n - 1 {
                assert(before is Some);
            }
        }
    }
}

/// Every erasure-coded strip that is marked for it gets exactly one placement
/// repair, in the order of the strips, and no other strip gets one. That fails only
/// where a marked strip was not assessed.
pub proof fn law_every_crowded_strip_is_repaired(chunk_id: ChunkId, strips: Seq<StripModel>)
    requires
        strips.len() <= usize::MAX,
    ensures
        ({
            let (plans, error) = admitted(chunk_id, strips, strips.len() as int);
            &&& forall|i: int|
                0 <= i < plans.len() ==> {
                    let at = (#[trigger] plans[i]).strip_index as int;
                    &&& at < strips.len()
                    &&& strips[at].placement_repair_required
                    &&& strips[at].strip matches Some(LayoutModel::Ec { .. })
                    &&& plans[i].payload.chunk_id == chunk_id
                    &&& plans[i].payload.strip_sequence == strips[at].strip_sequence
                }
            &&& forall|i: int, j: int|
                0 <= i < j < plans.len() ==> (#[trigger] plans[i]).strip_index < (
                #[trigger] plans[j]).strip_index
            &&& error is None ==> forall|k: int|
                0 <= k < strips.len() && (#[trigger] strips[k]).placement_repair_required && (
                strips[k].strip matches Some(LayoutModel::Ec { .. })) ==> exists|i: int|
                    0 <= i < plans.len() && (#[trigger] plans[i]).strip_index == k
            &&& error is Some <==> exists|k: int|
                0 <= k < strips.len() && (#[trigger] strips[k]).placement_repair_required && (
                strips[k].strip matches Some(LayoutModel::Ec { .. }))
                    && strips[k].placement_assessment is None
        }),
{
    let n = strips.len() as int;
    let (plans, error) = admitted(chunk_id, strips, n);
    lemma_admission_fails(chunk_id, strips, n);
    if error is None {
        assert forall|k: int|
            0 <= k < n && (#[trigger] strips[k]).placement_repair_required && (
            strips[k].strip matches Some(LayoutModel::Ec { .. })) implies exists|i: int|
            0 <= i < plans.len() && (#[trigger] plans[i]).strip_index == k by {
            let i = lemma_marked_is_admitted(chunk_id, strips, n, k);
            assert(plans[i].strip_index == k);
        }
    }
    lemma_admitted(chunk_id, strips, n);
}

/// The task of a placement repair waits unclaimed behind repairs of damage, in its
/// chunk's partition, for the revision at which the strip was seen; it moves one
/// fragment, which it reads and writes.
pub proof fn law_placement_tasks_wait(
    task_id: ChunkId,
    source_revision: u64,
    strip: StripModel,
    payload: PlacementRepairTaskPayload,
    bytes: Seq<u8>,
    now_ms: u64,
    versions: TaskVersions,
)
    ensures
        ({
            let task = placement_repair_task(
                task_id,
                source_revision,
                strip,
                payload,
                bytes,
                now_ms,
                versions,
            );
            &&& task.task_id == task_id
            &&& task.partition_id == payload.chunk_id
            &&& task.kind == TaskKind::RepairPlacement
            &&& task.state == ChunkTaskState::Pending
            &&& task.priority == 254
            &&& task.revision == 1 && task.source_revision == source_revision
            &&& task.created_at_ms == now_ms && task.updated_at_ms == now_ms
            &&& task.eligible_at_ms == now_ms
            &&& task.attempt == 0 && task.max_attempts == u32::MAX
            &&& task.claim_owner == 0 && task.claim_generation == 0 && task.claim_deadline_ms == 0
            &&& task.payload == bytes
            &&& task.schema_version == versions.schema && task.kind_version == versions.payload
            &&& strip.strip matches Some(LayoutModel::Ec { segments, .. }) ==> (segments.len() > 0
                && 2 * (segments[0].unit_count * strip.unit_kb * 1024) <= u64::MAX
                ==> task.estimated_queue_bytes == 2 * (segments[0].unit_count * strip.unit_kb
                * 1024))
        }),
{
    if let Some(LayoutModel::Ec { segments, .. }) = strip.strip {
        if segments.len() > 0 {
            let size = segments[0].unit_count * strip.unit_kb;
            assert(size >= 0) by (nonlinear_arith)
                requires
                    size == segments[0].unit_count * strip.unit_kb,
            ;
        }
    }
}

/// Fragments are counted one by one: by rack, by node, by disk-group, by disk.
pub proof fn law_fragments_are_counted(
    places: Seq<DiskLocation>,
    segments: Seq<Segment>,
    id: u64,
    disk: DiskId,
)
    ensures
        in_rack(places, id) == places.filter(|place: DiskLocation| place.rack_id == id).len(),
        on_node(places, id) == places.filter(|place: DiskLocation| place.node_id == id).len(),
        in_group(places, id) == places.filter(
            |place: DiskLocation| place.disk_group_id == id,
        ).len(),
        on_disk(segments, disk) == segments.filter(|s: Segment| s.disk_id == Some(disk)).len(),
    decreases places.len() + segments.len(),
{
    reveal(Seq::filter);
    if places.len() > 0 {
        law_fragments_are_counted(places.drop_last(), segments, id, disk);
    } else if segments.len() > 0 {
        law_fragments_are_counted(places, segments.drop_last(), id, disk);
    }
}

/// A segment stands where the snapshot tells of its disk.
pub proof fn law_segments_stand_on_their_disk(snap: &TopologySnapshot, segments: Seq<Segment>)
    ensures
        forall|s: Segment| #[trigger]
            place_of(snap, s) == (if s.disk_id is Some && snap.disks@.dom().contains(
                (s.disk_id->0.high, s.disk_id->0.low),
            ) {
                Some(snap.disks@[(s.disk_id->0.high, s.disk_id->0.low)].location)
            } else {
                None
            }),
        located_places(snap, segments) == segments.filter(
            |s: Segment| place_of(snap, s) is Some,
        ).map_values(|s: Segment| place_of(snap, s)->0),
    decreases segments.len(),
{
    reveal(Seq::filter);
    let known = |s: Segment| place_of(snap, s) is Some;
    let place = |s: Segment| place_of(snap, s)->0;
    if segments.len() > 0 {
        law_segments_stand_on_their_disk(snap, segments.drop_last());
        let front = segments.drop_last().filter(known);
        if known(segments.last()) {
            assert(front.push(segments.last()).map_values(place) =~= front.map_values(place).push(
                place(segments.last()),
            ));
        }
    }
    assert(located_places(snap, segments) =~= segments.filter(known).map_values(place));
}

proof fn lemma_first_over_budget(
    snap: &TopologySnapshot,
    segments: Seq<Segment>,
    loss_budget: u32,
    from: int,
)
    requires
        0 <= from,
    ensures
        match first_over_budget(snap, segments, loss_budget, from) {
            Some(at) => from <= at < segments.len() && over_budget(
                snap,
                segments,
                loss_budget,
                segments[at],
            ) && forall|j: int|
                from <= j < at ==> !over_budget(snap, segments, loss_budget, #[trigger] segments[j]),
            None => forall|j: int|
                from <= j < segments.len() ==> !over_budget(
                    snap,
                    segments,
                    loss_budget,
                    #[trigger] segments[j],
                ),
        },
    decreases segments.len() - from,
{
    if from < segments.len() && !over_budget(snap, segments, loss_budget, segments[from]) {
        lemma_first_over_budget(snap, segments, loss_budget, from + 1);
    }
}

/// Moved is the first fragment whose rack, node or disk holds more fragments of the
/// strip than may be lost, where the place of every fragment is known; and nothing is
/// moved where there is no such fragment.
pub proof fn law_crowded_fragment_is_moved(
    snap: &TopologySnapshot,
    segments: Seq<Segment>,
    loss_budget: u32,
    k: int,
)
    requires
        forall|i: int| 0 <= i < segments.len() ==> place_of(snap, #[trigger] segments[i]) is Some,
        0 <= k < segments.len(),
    ensures
        ({
            let places = located_places(snap, segments);
            let place = place_of(snap, segments[k])->0;
            let crowded = in_rack(places, place.rack_id) > loss_budget || on_node(
                places,
                place.node_id,
            ) > loss_budget || on_disk(segments, segments[k].disk_id->0) > loss_budget;
            match source_of(snap, segments, loss_budget) {
                Some(at) => {
                    &&& 0 <= at < segments.len()
                    &&& k == at ==> crowded
                    &&& k < at ==> !crowded
                },
                None => !crowded,
            }
        }),
{
    lemma_first_over_budget(snap, segments, loss_budget, 0);
}

/// Nothing is moved where the place of some fragment is not known.
pub proof fn law_unknown_places_move_nothing(
    snap: &TopologySnapshot,
    segments: Seq<Segment>,
    loss_budget: u32,
    k: int,
)
    requires
        0 <= k < segments.len(),
        place_of(snap, segments[k]) is None,
    ensures
        source_of(snap, segments, loss_budget) is None,
{
}

proof fn lemma_full_racks(places: Seq<DiskLocation>, loss_budget: u32, n: int, id: u64)
    requires
        0 <= n <= places.len(),
    ensures
        full_racks(places, loss_budget, n).contains(id) <==> exists|i: int|
            0 <= i < n && (#[trigger] places[i]).rack_id == id && in_rack(places, id) > loss_budget,
    decreases n,
{
    if n > 0 {
        lemma_full_racks(places, loss_budget, n - 1, id);
        let front = full_racks(places, loss_budget, n - 1);
        let all = full_racks(places, loss_budget, n);
        let last = places[n - 1].rack_id;
        if all != front {
            assert(all[all.len() - 1] == last);
            if front.contains(id) {
                let k = choose|k: int| 0 <= k < front.len() && front[k] == id;
                assert(all[k] == id);
            }
            if all.contains(id) && id != last {
                let k = choose|k: int| 0 <= k < all.len() && all[k] == id;
                assert(front[k] == id);
            }
        }
        if exists|i: int|
            0 <= i < n && (#[trigger] places[i]).rack_id == id && in_rack(places, id) > loss_budget {
            let i = choose|i: int|
                0 <= i < n && (#[trigger] places[i]).rack_id == id && in_rack(places, id)
                    > loss_budget;
            if i < n - 1 {
                assert(front.contains(id));
            }
        }
        if all.contains(id) {
            if id == last && !front.contains(id) {
                assert(places[n - 1].rack_id == id);
            }
        }
    }
}

proof fn lemma_full_nodes(places: Seq<DiskLocation>, loss_budget: u32, n: int, id: u64)
    requires
        0 <= n <= places.len(),
    ensures
        full_nodes(places, loss_budget, n).contains(id) <==> exists|i: int|
            0 <= i < n && (#[trigger] places[i]).node_id == id && on_node(places, id) > loss_budget,
    decreases n,
{
    if n > 0 {
        lemma_full_nodes(places, loss_budget, n - 1, id);
        let front = full_nodes(places, loss_budget, n - 1);
        let all = full_nodes(places, loss_budget, n);
        let last = places[n - 1].node_id;
        if all != front {
            assert(all[all.len() - 1] == last);
            if front.contains(id) {
                let k = choose|k: int| 0 <= k < front.len() && front[k] == id;
                assert(all[k] == id);
            }
            if all.contains(id) && id != last {
                let k = choose|k: int| 0 <= k < all.len() && all[k] == id;
                assert(front[k] == id);
            }
        }
        if exists|i: int|
            0 <= i < n && (#[trigger] places[i]).node_id == id && on_node(places, id) > loss_budget {
            let i = choose|i: int|
                0 <= i < n && (#[trigger] places[i]).node_id == id && on_node(places, id)
                    > loss_budget;
            if i < n - 1 {
                assert(front.contains(id));
            }
        }
        if all.contains(id) {
            if id == last && !front.contains(id) {
                assert(places[n - 1].node_id == id);
            }
        }
    }
}

proof fn lemma_full_disks(segments: Seq<Segment>, loss_budget: u32, n: int, disk: DiskId)
    requires
        0 <= n <= segments.len(),
    ensures
        full_disks(segments, loss_budget, n).contains(disk) <==> exists|i: int|
            0 <= i < n && (#[trigger] segments[i]).disk_id == Some(disk) && on_disk(segments, disk)
                >= loss_budget,
    decreases n,
{
    if n > 0 {
        lemma_full_disks(segments, loss_budget, n - 1, disk);
        let front = full_disks(segments, loss_budget, n - 1);
        let all = full_disks(segments, loss_budget, n);
        if all != front {
            let last = segments[n - 1].disk_id->0;
            assert(all[all.len() - 1] == last);
            if front.contains(disk) {
                let k = choose|k: int| 0 <= k < front.len() && front[k] == disk;
                assert(all[k] == disk);
            }
            if all.contains(disk) && disk != last {
                let k = choose|k: int| 0 <= k < all.len() && all[k] == disk;
                assert(front[k] == disk);
            }
        }
        if exists|i: int|
            0 <= i < n && (#[trigger] segments[i]).disk_id == Some(disk) && on_disk(segments, disk)
                >= loss_budget {
            let i = choose|i: int|
                0 <= i < n && (#[trigger] segments[i]).disk_id == Some(disk) && on_disk(
                    segments,
                    disk,
                ) >= loss_budget;
            if i < n - 1 {
                assert(front.contains(disk));
            }
        }
        if all.contains(disk) && !front.contains(disk) {
            assert(segments[n - 1].disk_id == Some(disk));
        }
    }
}

/// The racks and nodes that hold too many fragments are exactly those with more of
/// them than may be lost; the disks that can take no more are those that hold as many
/// as that, or more.
pub proof fn law_full_domains_hold_too_many(
    places: Seq<DiskLocation>,
    segments: Seq<Segment>,
    loss_budget: u32,
    id: u64,
    disk: DiskId,
)
    ensures
        full_racks(places, loss_budget, places.len() as int).contains(id) <==> exists|i: int|
            0 <= i < places.len() && (#[trigger] places[i]).rack_id == id && in_rack(places, id)
                > loss_budget,
        full_nodes(places, loss_budget, places.len() as int).contains(id) <==> exists|i: int|
            0 <= i < places.len() && (#[trigger] places[i]).node_id == id && on_node(places, id)
                > loss_budget,
        full_disks(segments, loss_budget, segments.len() as int).contains(disk) <==> exists|i: int|
            0 <= i < segments.len() && (#[trigger] segments[i]).disk_id == Some(disk) && on_disk(
                segments,
                disk,
            ) >= loss_budget,
{
    lemma_full_racks(places, loss_budget, places.len() as int, id);
    lemma_full_nodes(places, loss_budget, places.len() as int, id);
    lemma_full_disks(segments, loss_budget, segments.len() as int, disk);
}

/// The target of a moved fragment is a healthy disk-group that no constraint excludes
/// and that has a disk which may take it. No other such disk-group has fewer fragments
/// of the strip in its first domain, or as many there and fewer in the other.
pub proof fn law_moved_fragment_goes_to_the_least_crowded(
    snap: &TopologySnapshot,
    segments: Seq<Segment>,
    excluded_disks: Seq<DiskId>,
    exclude_racks: Seq<u64>,
    exclude_nodes: Seq<u64>,
    priority: FailureDomainPriority,
    other: int,
)
    requires
        segments.len() <= usize::MAX,
        0 <= other < snap.healthy().len(),
        !exclude_racks.contains(snap.healthy()[other].rack_id),
        !exclude_nodes.contains(snap.healthy()[other].node_id),
        exists|k: int|
            0 <= k < snap.healthy()[other].value.disk_ids@.len() && !excluded_disks.contains(
                #[trigger] snap.healthy()[other].value.disk_ids@[k],
            ),
        forall|i: int| 0 <= i < segments.len() ==> place_of(snap, #[trigger] segments[i]) is Some,
    ensures
        exists|at: int|
            #![trigger snap.healthy()[at]]
            {
                let groups = snap.healthy();
                let places = located_places(snap, segments);
                let rack = in_rack(places, groups[at].rack_id);
                let node = on_node(places, groups[at].node_id);
                let other_rack = in_rack(places, groups[other].rack_id);
                let other_node = on_node(places, groups[other].node_id);
                &&& 0 <= at < groups.len()
                &&& best_group_id(
                    snap,
                    segments,
                    excluded_disks,
                    exclude_racks,
                    exclude_nodes,
                    priority,
                ) == Some(groups[at].dg_id)
                &&& !exclude_racks.contains(groups[at].rack_id)
                &&& !exclude_nodes.contains(groups[at].node_id)
                &&& exists|k: int|
                    0 <= k < snap.healthy()[at].value.disk_ids@.len() && !excluded_disks.contains(
                        #[trigger] snap.healthy()[at].value.disk_ids@[k],
                    )
                &&& priority == FailureDomainPriority::NodeFirst ==> node <= other_node && (node
                    == other_node ==> rack <= other_rack)
                &&& priority == FailureDomainPriority::RackFirst ==> rack <= other_rack && (rack
                    == other_rack ==> node <= other_node)
            },
{
    let groups = snap.healthy();
    let places = located_places(snap, segments);
    assert(may_take(groups[other], excluded_disks, exclude_racks, exclude_nodes));
    let at = law_best_group_exists(
        snap,
        segments,
        excluded_disks,
        exclude_racks,
        exclude_nodes,
        priority,
        other,
    );
    assert(crate::placement_repair::all_placed(snap, segments));
    lemma_places_fit(snap, segments);
    lemma_counts_fit(places, groups[at].rack_id);
    lemma_counts_fit(places, groups[at].node_id);
    lemma_counts_fit(places, groups[other].rack_id);
    lemma_counts_fit(places, groups[other].node_id);
    assert(snap.healthy()[at] == groups[at]);
}

proof fn lemma_places_fit(snap: &TopologySnapshot, segments: Seq<Segment>)
    ensures
        located_places(snap, segments).len() <= segments.len(),
    decreases segments.len(),
{
    if segments.len() > 0 {
        lemma_places_fit(snap, segments.drop_last());
    }
}

proof fn lemma_counts_fit(places: Seq<DiskLocation>, id: u64)
    ensures
        in_rack(places, id) <= places.len(),
        on_node(places, id) <= places.len(),
    decreases places.len(),
{
    if places.len() > 0 {
        lemma_counts_fit(places.drop_last(), id);
    }
}

/// The usages that a rebalance looks at are those of the disk-groups that report
/// some capacity, as they report them.
pub proof fn law_usages_are_as_reported(snap: &TopologySnapshot, groups: Seq<DiskGroupEntry>)
    ensures
        usages_of(snap, groups) == groups.filter(
            |group: DiskGroupEntry|
                snap.usage@.dom().contains((group.dg_id, 0)) && snap.usage@[(
                    group.dg_id,
                    0,
                )].capacity.capacity_bytes > 0,
        ).map_values(
            |group: DiskGroupEntry|
                GroupUsage {
                    dg_id: group.dg_id,
                    used_bytes: snap.usage@[(group.dg_id, 0)].capacity.used_bytes,
                    capacity_bytes: snap.usage@[(group.dg_id, 0)].capacity.capacity_bytes,
                    free_bytes: snap.usage@[(group.dg_id, 0)].capacity.free_bytes,
                },
        ),
    decreases groups.len(),
{
    reveal(Seq::filter);
    let known = |group: DiskGroupEntry|
        snap.usage@.dom().contains((group.dg_id, 0)) && snap.usage@[(
            group.dg_id,
            0,
        )].capacity.capacity_bytes > 0;
    let usage = |group: DiskGroupEntry|
        GroupUsage {
            dg_id: group.dg_id,
            used_bytes: snap.usage@[(group.dg_id, 0)].capacity.used_bytes,
            capacity_bytes: snap.usage@[(group.dg_id, 0)].capacity.capacity_bytes,
            free_bytes: snap.usage@[(group.dg_id, 0)].capacity.free_bytes,
        };
    if groups.len() > 0 {
        law_usages_are_as_reported(snap, groups.drop_last());
        let front = groups.drop_last().filter(known);
        if known(groups.last()) {
            assert(front.push(groups.last()).map_values(usage) =~= front.map_values(usage).push(
                usage(groups.last()),
            ));
        }
    }
    assert(usages_of(snap, groups) =~= groups.filter(known).map_values(usage));
}

/// A rebalance moves from a disk-group that no other exceeds in its share of used
/// space to one with room enough that no other with room enough undercuts, and only
/// where their shares differ by the threshold, in percent.
pub proof fn law_rebalance_evens_out(
    usages: Seq<GroupUsage>,
    policy: PlacementRebalanceConfig,
    j: int,
)
    requires
        proper(usages),
        0 <= j < usages.len(),
        forall|i: int| 0 <= i < usages.len() ==> (#[trigger] usages[i]).used_bytes * 100 <= u64::MAX,
    ensures
        skewed_pair(usages, policy) matches Some((source, target)) ==> exists|s: int, t: int|
            #![trigger usages[s], usages[t]]
            {
                let (full, empty) = (usages[s], usages[t]);
                &&& 0 <= s < usages.len() && 0 <= t < usages.len()
                &&& full.dg_id == source && empty.dg_id == target && source != target
                &&& full.used_bytes * usages[j].capacity_bytes >= usages[j].used_bytes
                    * full.capacity_bytes
                &&& empty.free_bytes >= policy.min_target_free_bytes
                &&& usages[j].dg_id != source && usages[j].free_bytes
                    >= policy.min_target_free_bytes ==> empty.used_bytes * usages[j].capacity_bytes
                    <= usages[j].used_bytes * empty.capacity_bytes
                &&& (full.used_bytes * 100) / (full.capacity_bytes as int) - (empty.used_bytes * 100)
                    / (empty.capacity_bytes as int) >= policy.imbalance_threshold_pct
                    || policy.imbalance_threshold_pct == 0
            },
{
    if let Some((source, target)) = skewed_pair(usages, policy) {
        let s = choose|s: int| #[trigger] is_fullest(usages, s);
        let t = choose|t: int| #[trigger]
            is_emptiest_target(usages, usages[s].dg_id, policy.min_target_free_bytes, t);
        assert(is_fullest(usages, s));
        assert(is_emptiest_target(usages, usages[s].dg_id, policy.min_target_free_bytes, t));
        let (full, empty) = (usages[s], usages[t]);
        let (fu, fc) = (full.used_bytes as int, full.capacity_bytes as int);
        let (eu, ec) = (empty.used_bytes as int, empty.capacity_bytes as int);
        let a = (fu * 100) / fc;
        let b = (eu * 100) / ec;
        lemma_share(fu * 100, fc);
        lemma_share(eu * 100, ec);
        assert(used_percent(full) == a);
        assert(used_percent(empty) == b);
        assert(usages[s] == full && usages[t] == empty);
    }
}

proof fn lemma_share(used: int, capacity: int)
    requires
        0 <= used <= u64::MAX,
        0 < capacity,
    ensures
        0 <= used / capacity <= u64::MAX,
{
    vstd::arithmetic::div_mod::lemma_div_pos_is_pos(used, capacity);
    vstd::arithmetic::div_mod::lemma_div_is_ordered_by_denominator(used, 1, capacity);
}

proof fn lemma_first_in_group(
    snap: &TopologySnapshot,
    segments: Seq<Segment>,
    dg_id: u64,
    from: int,
)
    requires
        0 <= from,
    ensures
        match first_in_group(snap, segments, dg_id, from) {
            Some(source) => segments.contains(source) && (place_of(snap, source) matches Some(place)
                && place.disk_group_id == dg_id),
            None => forall|j: int|
                from <= j < segments.len() ==> !(place_of(snap, #[trigger] segments[j]) matches Some(
                    place,
                ) && place.disk_group_id == dg_id),
        },
    decreases segments.len() - from,
{
    if from < segments.len() {
        if crate::placement_rebalance::stands_in(snap, segments[from], dg_id) {
            assert(segments.contains(segments[from]));
        } else {
            lemma_first_in_group(snap, segments, dg_id, from + 1);
        }
    }
}

/// A fragment may be moved out of a disk-group exactly where its strip has one there
/// and waits for no placement repair; the target keeps clear of all disks of the
/// strip.
pub proof fn law_moves_are_out_of_the_group(
    snap: &TopologySnapshot,
    strips: Seq<StripModel>,
    dg_id: u64,
    n: int,
)
    requires
        0 <= n <= strips.len(),
    ensures
        ({
            let found = candidates_of(snap, strips, dg_id, n);
            &&& forall|i: int|
                0 <= i < found.len() ==> {
                    let at = (#[trigger] found[i]).strip_index;
                    &&& 0 <= at < n
                    &&& !strips[at].placement_repair_required
                    &&& strips[at].segments().contains(found[i].source)
                    &&& (place_of(snap, found[i].source) matches Some(place) && place.disk_group_id
                        == dg_id)
                    &&& found[i].excluded == crate::repair::attempt::disks_of(strips[at].segments())
                }
            &&& forall|k: int|
                0 <= k < n && !(#[trigger] strips[k]).placement_repair_required && (exists|j: int|
                    0 <= j < strips[k].segments().len() && (place_of(
                        snap,
                        #[trigger] strips[k].segments()[j],
                    ) matches Some(place) && place.disk_group_id == dg_id)) ==> exists|i: int|
                    0 <= i < found.len() && (#[trigger] found[i]).strip_index == k
        }),
    decreases n,
{
    if n > 0 {
        law_moves_are_out_of_the_group(snap, strips, dg_id, n - 1);
        let front = candidates_of(snap, strips, dg_id, n - 1);
        let found = candidates_of(snap, strips, dg_id, n);
        lemma_first_in_group(snap, strips[n - 1].segments(), dg_id, 0);
        assert forall|k: int|
            0 <= k < n && !(#[trigger] strips[k]).placement_repair_required && (exists|j: int|
                0 <= j < strips[k].segments().len() && (place_of(
                    snap,
                    #[trigger] strips[k].segments()[j],
                ) matches Some(place) && place.disk_group_id == dg_id)) implies exists|i: int|
            0 <= i < found.len() && (#[trigger] found[i]).strip_index == k by {
            if k < n - 1 {
                let i = choose|i: int|
                    0 <= i < front.len() && (#[trigger] front[i]).strip_index == k;
                assert(found[i] == front[i]);
            } else {
                assert(found[found.len() - 1].strip_index == k);
            }
        }
    }
}

/// A skew counts from when it is first seen, and no more once it is gone; it has
/// lasted once that is so many seconds ago.
pub proof fn law_skew_must_last(
    since: u64,
    pair: Option<(u64, u64)>,
    now_ms: u64,
    hysteresis_secs: u64,
)
    ensures
        pair is None ==> observed_after(since, pair, now_ms) == 0,
        pair is Some && since > 0 ==> observed_after(since, pair, now_ms) == since,
        pair is Some && since == 0 && now_ms > 0 ==> observed_after(since, pair, now_ms) == now_ms,
        since > 0 && now_ms >= since && hysteresis_secs * 1000 <= u64::MAX ==> (lasted(
            since,
            now_ms,
            hysteresis_secs,
        ) <==> now_ms - since >= hysteresis_secs * 1000),
        since == 0 ==> (lasted(since, now_ms, hysteresis_secs) <==> hysteresis_secs == 0),
{
}

/// A move puts the target where the source is, and leaves every other fragment; a
/// source that is not there cannot be moved.
pub proof fn law_moved_segments_change_one(
    segments: Seq<Segment>,
    source: Segment,
    target: Segment,
)
    ensures
        moved_segments(segments, source, target) is Some <==> segments.contains(source),
        moved_segments(segments, source, target) matches Some(next) ==> exists|k: int|
            0 <= k < segments.len() && (#[trigger] segments[k]) == source && next
                == segments.update(k, target),
{
    if segments.contains(source) {
        let k = crate::repair::attempt::lemma_first_exists(segments, source, 0);
        crate::repair::attempt::lemma_first_index(segments, source, k);
        assert(segments[k] == source);
    }
}

/// A repair waits for the topology exactly where an allocation found too few nodes, too
/// little room or no healthy disk-group.
pub proof fn law_repair_waits_for_room(error: PlacementErrorModel, other: LifecycleErrorModel)
    ensures
        PlacementRepairModel::Lifecycle(
            LifecycleErrorModel::Allocation(AllocErrorModel::Placement(error)),
        ).waits_for_topology() <==> (error is InsufficientNodes || error
            == PlacementErrorModel::InsufficientCapacity || error
            == PlacementErrorModel::NoHealthyDiskGroups),
        !(other is Allocation) ==> !PlacementRepairModel::Lifecycle(other).waits_for_topology(),
{
}

} // verus!
