//! What a placement plan is for, told on the rows of the snapshot and the entries
//! of the plan.
use vstd::prelude::*;
use crate::selector::{
    admitted_places, block_total, finished_plan, lemma_blocks_bounded, lemma_nodes_of, lemma_peaks,
    lemma_racks_of, node_blocks, nodes_of, one_block, peak_node_blocks, peak_rack_blocks,
    protection_of, rack_blocks, racks_of, ConstraintsModel, PlacementEntry, PlacementErrorModel,
    PlanModel,
};
use crate::selector::balance::even_share;
use crate::selector::ec::{ec_selection, law_distribution, stands_on};
use crate::selector::mirror::{
    is_mirror_selection, law_mirror_copies, law_mirror_refusal, mirror_selection, mirrored,
    orders_racks,
};
use crate::topology::{
    group_is_healthy, healthy_of, DiskGroupEntry, DiskLocation, HwStatus, NodeRow, RackRow,
    TopologySnapshot,
};

verus! {

proof fn lemma_healthy_rows(
    racks: Map<(u64, u64), RackRow>,
    nodes: Map<(u64, u64), NodeRow>,
    groups: Seq<DiskGroupEntry>,
)
    ensures
        healthy_of(racks, nodes, groups) == groups.filter(
            |group: DiskGroupEntry|
                group.value.status == HwStatus::Up && nodes.dom().contains(
                    (group.rack_id, group.node_id),
                ) && nodes[(group.rack_id, group.node_id)].status == HwStatus::Up
                    && racks.dom().contains((group.rack_id, 0)) && racks[(
                    group.rack_id,
                    0,
                )].status == HwStatus::Up,
        ),
    decreases groups.len(),
{
    reveal(Seq::filter);
    if groups.len() > 0 {
        lemma_healthy_rows(racks, nodes, groups.drop_last());
    }
}

/// The healthy disk-groups of a snapshot are exactly those that are up, on a node
/// that is up, in a rack that is up.
pub proof fn law_healthy_groups_are_up(snap: &TopologySnapshot)
    ensures
        snap.healthy() == snap.disk_groups.order().filter(
            |group: DiskGroupEntry|
                group.value.status == HwStatus::Up && snap.nodes@.dom().contains(
                    (group.rack_id, group.node_id),
                ) && snap.nodes@[(group.rack_id, group.node_id)].status == HwStatus::Up
                    && snap.racks@.dom().contains((group.rack_id, 0)) && snap.racks@[(
                    group.rack_id,
                    0,
                )].status == HwStatus::Up,
        ),
{
    lemma_healthy_rows(snap.racks@, snap.nodes@, snap.disk_groups.order());
}

proof fn lemma_admitted_are(groups: Seq<DiskGroupEntry>, constraints: ConstraintsModel)
    ensures
        forall|place: DiskLocation| #[trigger]
            admitted_places(groups, constraints).contains(place) <==> {
                &&& exists|k: int|
                    0 <= k < groups.len() && (#[trigger] groups[k]).rack_id == place.rack_id
                        && groups[k].node_id == place.node_id && groups[k].dg_id
                        == place.disk_group_id
                &&& !constraints.exclude_racks.contains(place.rack_id)
                &&& !constraints.exclude_nodes.contains(place.node_id)
                &&& !constraints.exclude_disk_groups.contains(place.disk_group_id)
            },
    decreases groups.len(),
{
    if groups.len() > 0 {
        let front = groups.drop_last();
        let before = admitted_places(front, constraints);
        let all = admitted_places(groups, constraints);
        let last = groups.last().spec_place();
        lemma_admitted_are(front, constraints);
        assert(groups[groups.len() - 1] == groups.last());
        assert forall|place: DiskLocation| #[trigger] all.contains(place) <==> {
            &&& exists|k: int|
                0 <= k < groups.len() && (#[trigger] groups[k]).rack_id == place.rack_id
                    && groups[k].node_id == place.node_id && groups[k].dg_id == place.disk_group_id
            &&& !constraints.exclude_racks.contains(place.rack_id)
            &&& !constraints.exclude_nodes.contains(place.node_id)
            &&& !constraints.exclude_disk_groups.contains(place.disk_group_id)
        } by {
            if all.contains(place) {
                let i = choose|i: int| 0 <= i < all.len() && all[i] == place;
                if i < before.len() {
                    assert(before[i] == place);
                    assert(before.contains(place));
                    let k = choose|k: int|
                        0 <= k < front.len() && (#[trigger] front[k]).rack_id == place.rack_id
                            && front[k].node_id == place.node_id && front[k].dg_id
                            == place.disk_group_id;
                    assert(groups[k] == front[k]);
                } else {
                    assert(place == last);
                }
            }
            if constraints.admits(place) && exists|k: int|
                0 <= k < groups.len() && (#[trigger] groups[k]).rack_id == place.rack_id
                    && groups[k].node_id == place.node_id && groups[k].dg_id
                    == place.disk_group_id {
                let k = choose|k: int|
                    0 <= k < groups.len() && (#[trigger] groups[k]).rack_id == place.rack_id
                        && groups[k].node_id == place.node_id && groups[k].dg_id
                        == place.disk_group_id;
                if k < front.len() {
                    assert(front[k] == groups[k]);
                    assert(before.contains(place));
                    let i = choose|i: int| 0 <= i < before.len() && before[i] == place;
                    assert(all[i] == place);
                } else {
                    assert(place == last);
                    assert(all[all.len() - 1] == place);
                }
            }
        }
    }
}

/// The disk-group is one of the snapshot's that may take blocks: it, its node and
/// its rack are up, and none of them is excluded.
pub open spec fn may_take_blocks(
    snap: &TopologySnapshot,
    constraints: ConstraintsModel,
    rack_id: u64,
    node_id: u64,
    dg_id: u64,
) -> bool {
    &&& exists|k: int|
        0 <= k < snap.disk_groups.order().len() && (
        #[trigger] snap.disk_groups.order()[k]).rack_id == rack_id
            && snap.disk_groups.order()[k].node_id == node_id && snap.disk_groups.order()[k].dg_id
            == dg_id && snap.disk_groups.order()[k].value.status == HwStatus::Up
    &&& snap.nodes@.dom().contains((rack_id, node_id))
    &&& snap.nodes@[(rack_id, node_id)].status == HwStatus::Up
    &&& snap.racks@.dom().contains((rack_id, 0))
    &&& snap.racks@[(rack_id, 0)].status == HwStatus::Up
    &&& !constraints.exclude_racks.contains(rack_id)
    &&& !constraints.exclude_nodes.contains(node_id)
    &&& !constraints.exclude_disk_groups.contains(dg_id)
}

proof fn lemma_healthy_contains(
    racks: Map<(u64, u64), RackRow>,
    nodes: Map<(u64, u64), NodeRow>,
    groups: Seq<DiskGroupEntry>,
)
    ensures
        forall|group: DiskGroupEntry| #[trigger]
            healthy_of(racks, nodes, groups).contains(group) <==> groups.contains(group)
                && group_is_healthy(racks, nodes, group),
    decreases groups.len(),
{
    if groups.len() > 0 {
        let front = groups.drop_last();
        let before = healthy_of(racks, nodes, front);
        let all = healthy_of(racks, nodes, groups);
        lemma_healthy_contains(racks, nodes, front);
        assert(groups[groups.len() - 1] == groups.last());
        assert forall|group: DiskGroupEntry| #[trigger] all.contains(group) <==> groups.contains(
            group,
        ) && group_is_healthy(racks, nodes, group) by {
            if all.contains(group) {
                let i = choose|i: int| 0 <= i < all.len() && all[i] == group;
                if i < before.len() {
                    assert(before[i] == group);
                    assert(before.contains(group));
                    let k = choose|k: int| 0 <= k < front.len() && front[k] == group;
                    assert(groups[k] == group);
                }
            }
            if groups.contains(group) && group_is_healthy(racks, nodes, group) {
                let k = choose|k: int| 0 <= k < groups.len() && groups[k] == group;
                if k < front.len() {
                    assert(front[k] == group);
                    assert(before.contains(group));
                    let i = choose|i: int| 0 <= i < before.len() && before[i] == group;
                    assert(all[i] == group);
                } else {
                    assert(all[all.len() - 1] == group);
                }
            }
        }
    }
}

/// The places that a plan may use are exactly the disk-groups that are up with
/// their node and rack and that no constraint excludes.
pub proof fn law_places_are_up_and_admitted(
    snap: &TopologySnapshot,
    constraints: ConstraintsModel,
    rack_id: u64,
    node_id: u64,
    dg_id: u64,
)
    ensures
        admitted_places(snap.healthy(), constraints).contains(
            (DiskLocation { rack_id, node_id, disk_group_id: dg_id }),
        ) <==> may_take_blocks(snap, constraints, rack_id, node_id, dg_id),
{
    let place = DiskLocation { rack_id, node_id, disk_group_id: dg_id };
    let groups = snap.disk_groups.order();
    let healthy = snap.healthy();
    lemma_admitted_are(healthy, constraints);
    lemma_healthy_contains(snap.racks@, snap.nodes@, groups);
    assert(admitted_places(healthy, constraints).contains(place) ==> may_take_blocks(
        snap,
        constraints,
        rack_id,
        node_id,
        dg_id,
    )) by {
        if admitted_places(healthy, constraints).contains(place) {
            let k = choose|k: int|
                0 <= k < healthy.len() && (#[trigger] healthy[k]).rack_id == place.rack_id
                    && healthy[k].node_id == place.node_id && healthy[k].dg_id
                    == place.disk_group_id;
            assert(healthy.contains(healthy[k]));
            let j = choose|j: int| 0 <= j < groups.len() && groups[j] == healthy[k];
            assert(groups[j].rack_id == rack_id);
        }
    }
    if may_take_blocks(snap, constraints, rack_id, node_id, dg_id) {
        let k = choose|k: int|
            0 <= k < groups.len() && (#[trigger] groups[k]).rack_id == rack_id && groups[k].node_id
                == node_id && groups[k].dg_id == dg_id && groups[k].value.status == HwStatus::Up;
        assert(groups.contains(groups[k]));
        assert(healthy.contains(groups[k]));
        let j = choose|j: int| 0 <= j < healthy.len() && healthy[j] == groups[k];
        assert(healthy[j].rack_id == rack_id);
    }
}

proof fn lemma_entry_may_take_blocks(
    snap: &TopologySnapshot,
    constraints: ConstraintsModel,
    entry: PlacementEntry,
)
    requires
        stands_on(admitted_places(snap.healthy(), constraints), entry),
    ensures
        entry.block_count == 1,
        may_take_blocks(snap, constraints, entry.rack_id, entry.node_id, entry.disk_group_id),
{
    let places = admitted_places(snap.healthy(), constraints);
    let k = choose|k: int| 0 <= k < places.len() && one_block(#[trigger] places[k]) == entry;
    assert(places.contains(places[k]));
    law_places_are_up_and_admitted(
        snap,
        constraints,
        entry.rack_id,
        entry.node_id,
        entry.disk_group_id,
    );
}

proof fn lemma_single_node(entries: Seq<PlacementEntry>, node: u64)
    requires
        forall|i: int| 0 <= i < entries.len() ==> (#[trigger] entries[i]).block_count == 1,
    ensures
        node_blocks(entries, node) == entries.filter(
            |entry: PlacementEntry| entry.node_id == node,
        ).len(),
    decreases entries.len(),
{
    reveal(Seq::filter);
    if entries.len() > 0 {
        assert(entries[entries.len() - 1] == entries.last());
        assert forall|i: int| 0 <= i < entries.drop_last().len() implies (
        #[trigger] entries.drop_last()[i]).block_count == 1 by {
            assert(entries.drop_last()[i] == entries[i]);
        }
        lemma_single_node(entries.drop_last(), node);
    }
}

proof fn lemma_single_rack(entries: Seq<PlacementEntry>, rack: u64)
    requires
        forall|i: int| 0 <= i < entries.len() ==> (#[trigger] entries[i]).block_count == 1,
    ensures
        rack_blocks(entries, rack) == entries.filter(
            |entry: PlacementEntry| entry.rack_id == rack,
        ).len(),
    decreases entries.len(),
{
    reveal(Seq::filter);
    if entries.len() > 0 {
        assert(entries[entries.len() - 1] == entries.last());
        assert forall|i: int| 0 <= i < entries.drop_last().len() implies (
        #[trigger] entries.drop_last()[i]).block_count == 1 by {
            assert(entries.drop_last()[i] == entries[i]);
        }
        lemma_single_rack(entries.drop_last(), rack);
    }
}

proof fn lemma_two_on_one_node(entries: Seq<PlacementEntry>, i: int, j: int)
    requires
        0 <= i < j < entries.len(),
        forall|k: int| 0 <= k < entries.len() ==> (#[trigger] entries[k]).block_count == 1,
        entries[i].node_id == entries[j].node_id,
    ensures
        node_blocks(entries, entries[i].node_id) >= 2,
    decreases entries.len(),
{
    let node = entries[i].node_id;
    let front = entries.drop_last();
    assert forall|k: int| 0 <= k < front.len() implies (#[trigger] front[k]).block_count == 1 by {
        assert(front[k] == entries[k]);
    }
    if j < front.len() {
        lemma_two_on_one_node(front, i, j);
        lemma_blocks_bounded(seq![entries.last()], node);
    } else {
        lemma_one_on_node(front, i);
        assert(entries[entries.len() - 1] == entries.last());
    }
}

proof fn lemma_one_on_node(entries: Seq<PlacementEntry>, i: int)
    requires
        0 <= i < entries.len(),
        forall|k: int| 0 <= k < entries.len() ==> (#[trigger] entries[k]).block_count == 1,
    ensures
        node_blocks(entries, entries[i].node_id) >= 1,
    decreases entries.len(),
{
    let front = entries.drop_last();
    assert(entries[entries.len() - 1] == entries.last());
    assert forall|k: int| 0 <= k < front.len() implies (#[trigger] front[k]).block_count == 1 by {
        assert(front[k] == entries[k]);
    }
    lemma_blocks_bounded(front, entries[i].node_id);
    if i < front.len() {
        lemma_one_on_node(front, i);
    }
}

/// Every copy of a mirrored strip stands on a disk-group that is up, on a node
/// that is up, in a rack that is up, and that no constraint excludes. There are as
/// many copies as were asked for, and no two of them share a node.
pub proof fn law_mirror_plan_stands_on_what_is_up(
    snap: &TopologySnapshot,
    copy_count: usize,
    constraints: ConstraintsModel,
    plan: PlanModel,
)
    requires
        is_mirror_selection(
            admitted_places(snap.healthy(), constraints),
            copy_count,
            constraints,
            Ok(plan),
        ),
    ensures
        plan.entries.len() == copy_count,
        forall|i: int|
            0 <= i < plan.entries.len() ==> (#[trigger] plan.entries[i]).block_count == 1
                && may_take_blocks(
                snap,
                constraints,
                plan.entries[i].rack_id,
                plan.entries[i].node_id,
                plan.entries[i].disk_group_id,
            ),
        forall|i: int, j: int|
            0 <= i < j < plan.entries.len() ==> (#[trigger] plan.entries[i]).node_id != (
            #[trigger] plan.entries[j]).node_id,
{
    let places = admitted_places(snap.healthy(), constraints);
    let racks = choose|racks: Seq<u64>|
        orders_racks(racks, places) && Ok::<PlanModel, PlacementErrorModel>(plan)
            == #[trigger] mirror_selection(places, racks, copy_count, constraints);
    law_mirror_copies(places, racks, copy_count as nat);
    let entries = mirrored(places, racks, copy_count as nat);
    assert(plan.entries == entries);
    assert forall|i: int| 0 <= i < entries.len() implies (#[trigger] entries[i]).block_count == 1
        && may_take_blocks(
        snap,
        constraints,
        entries[i].rack_id,
        entries[i].node_id,
        entries[i].disk_group_id,
    ) by {
        assert(stands_on(places, entries[i]));
        lemma_entry_may_take_blocks(snap, constraints, entries[i]);
    }
    assert forall|i: int, j: int| 0 <= i < j < entries.len() implies (
    #[trigger] entries[i]).node_id != (#[trigger] entries[j]).node_id by {
        if entries[i].node_id == entries[j].node_id {
            lemma_two_on_one_node(entries, i, j);
            assert(node_blocks(entries, entries[i].node_id) <= 1);
        }
    }
}

/// Every block of an erasure-coded strip stands on a disk-group that is up, on a
/// node that is up, in a rack that is up, and that no constraint excludes. There is
/// one for every data and parity shard. Unless unsafe placement is allowed, no node
/// holds more blocks than the parity can make up for; and a plan that is safe keeps
/// every rack within that, too.
pub proof fn law_ec_plan_stands_on_what_is_up(
    snap: &TopologySnapshot,
    data_num: usize,
    code_num: usize,
    constraints: ConstraintsModel,
)
    requires
        data_num + code_num <= u32::MAX,
    ensures
        ec_selection(
            admitted_places(snap.healthy(), constraints),
            data_num,
            code_num,
            constraints,
        ) matches Ok(plan) ==> {
            &&& plan.entries.len() == data_num + code_num
            &&& forall|i: int|
                0 <= i < plan.entries.len() ==> (#[trigger] plan.entries[i]).block_count == 1
                    && may_take_blocks(
                    snap,
                    constraints,
                    plan.entries[i].rack_id,
                    plan.entries[i].node_id,
                    plan.entries[i].disk_group_id,
                )
            &&& !constraints.allow_unsafe_ec ==> forall|i: int|
                0 <= i < plan.entries.len() ==> plan.entries.filter(
                    |entry: PlacementEntry|
                        entry.node_id == (#[trigger] plan.entries[i]).node_id,
                ).len() <= code_num
            &&& plan.safe_mode ==> forall|i: int|
                0 <= i < plan.entries.len() ==> plan.entries.filter(
                    |entry: PlacementEntry|
                        entry.rack_id == (#[trigger] plan.entries[i]).rack_id,
                ).len() <= code_num && plan.entries.filter(
                    |entry: PlacementEntry| entry.node_id == plan.entries[i].node_id,
                ).len() <= code_num
        },
{
    let places = admitted_places(snap.healthy(), constraints);
    let total = (data_num + code_num) as nat;
    if let Ok(plan) = ec_selection(places, data_num, code_num, constraints) {
        let priority = constraints.failure_domain_priority;
        law_distribution(places, total, code_num as nat, priority);
        law_distribution(places, total, total, priority);
        let entries = plan.entries;
        assert forall|i: int| 0 <= i < entries.len() implies (#[trigger] entries[i]).block_count == 1
            && may_take_blocks(
            snap,
            constraints,
            entries[i].rack_id,
            entries[i].node_id,
            entries[i].disk_group_id,
        ) by {
            assert(stands_on(places, entries[i]));
            lemma_entry_may_take_blocks(snap, constraints, entries[i]);
        }
        lemma_peaks(entries, entries.len());
        if !constraints.allow_unsafe_ec {
            assert forall|i: int| 0 <= i < entries.len() implies entries.filter(
                |entry: PlacementEntry| entry.node_id == (#[trigger] entries[i]).node_id,
            ).len() <= code_num by {
                lemma_single_node(entries, entries[i].node_id);
                assert(node_blocks(entries, entries[i].node_id) <= code_num);
            }
        }
        if plan.safe_mode {
            assert forall|i: int| 0 <= i < entries.len() implies entries.filter(
                |entry: PlacementEntry| entry.rack_id == (#[trigger] entries[i]).rack_id,
            ).len() <= code_num && entries.filter(
                |entry: PlacementEntry| entry.node_id == entries[i].node_id,
            ).len() <= code_num by {
                lemma_single_node(entries, entries[i].node_id);
                lemma_single_rack(entries, entries[i].rack_id);
            }
        }
    }
}

proof fn lemma_nodes_as_set(places: Seq<DiskLocation>)
    ensures
        nodes_of(places).len() == places.map_values(
            |place: DiskLocation| place.node_id,
        ).to_set().len(),
{
    let nodes = nodes_of(places);
    let ids = places.map_values(|place: DiskLocation| place.node_id);
    lemma_nodes_of(places);
    assert(nodes.no_duplicates());
    nodes.unique_seq_to_set();
    assert(nodes.to_set() =~= ids.to_set()) by {
        assert forall|x: u64| nodes.to_set().contains(x) <==> ids.to_set().contains(x) by {
            if nodes.contains(x) {
                let i = choose|i: int| 0 <= i < places.len() && (#[trigger] places[i]).node_id == x;
                assert(ids[i] == x);
            }
            if ids.contains(x) {
                let i = choose|i: int| 0 <= i < ids.len() && ids[i] == x;
                assert(places[i].node_id == x);
            }
        }
    }
}

proof fn lemma_racks_as_set(places: Seq<DiskLocation>)
    ensures
        racks_of(places).len() == places.map_values(
            |place: DiskLocation| place.rack_id,
        ).to_set().len(),
{
    let racks = racks_of(places);
    let ids = places.map_values(|place: DiskLocation| place.rack_id);
    lemma_racks_of(places);
    assert(racks.no_duplicates());
    racks.unique_seq_to_set();
    assert(racks.to_set() =~= ids.to_set()) by {
        assert forall|x: u64| racks.to_set().contains(x) <==> ids.to_set().contains(x) by {
            if racks.contains(x) {
                let i = choose|i: int| 0 <= i < places.len() && (#[trigger] places[i]).rack_id == x;
                assert(ids[i] == x);
            }
            if ids.contains(x) {
                let i = choose|i: int| 0 <= i < ids.len() && ids[i] == x;
                assert(places[i].rack_id == x);
            }
        }
    }
}

/// There is a plan for copies exactly where some are asked for and there are
/// different nodes enough to take one each.
pub proof fn law_mirror_needs_a_node_per_copy(
    places: Seq<DiskLocation>,
    racks: Seq<u64>,
    copy_count: usize,
    constraints: ConstraintsModel,
)
    requires
        orders_racks(racks, places),
    ensures
        mirror_selection(places, racks, copy_count, constraints) is Ok <==> copy_count > 0
            && places.map_values(|place: DiskLocation| place.node_id).to_set().len() >= copy_count,
{
    law_mirror_refusal(places, racks, copy_count, constraints);
    lemma_nodes_as_set(places);
    lemma_nodes_of(places);
}

/// Copies share no rack while there are racks enough for them, where every node
/// stands on one rack.
pub proof fn law_copies_share_no_rack(
    places: Seq<DiskLocation>,
    racks: Seq<u64>,
    copy_count: usize,
    constraints: ConstraintsModel,
    i: int,
    j: int,
)
    requires
        orders_racks(racks, places),
        forall|a: int, b: int|
            0 <= a < places.len() && 0 <= b < places.len() && (#[trigger] places[a]).node_id == (
            #[trigger] places[b]).node_id ==> places[a].rack_id == places[b].rack_id,
        copy_count <= places.map_values(|place: DiskLocation| place.rack_id).to_set().len(),
        0 <= i < j < copy_count,
    ensures
        mirror_selection(places, racks, copy_count, constraints) matches Ok(plan)
            ==> plan.entries[i].rack_id != plan.entries[j].rack_id,
{
    if mirror_selection(places, racks, copy_count, constraints) is Ok {
        lemma_racks_as_set(places);
        racks.to_multiset_ensures();
        racks_of(places).to_multiset_ensures();
        crate::selector::mirror::law_one_copy_per_rack(places, racks, copy_count as nat, i);
        crate::selector::mirror::law_one_copy_per_rack(places, racks, copy_count as nat, j);
    }
}

/// The blocks of an erasure-coded strip find their places exactly where every
/// node takes at most as many as the parity can make up for, or unsafe placement is
/// allowed; and where no lack of protection is accepted, a plan is a safe one.
pub proof fn law_ec_needs_room_on_nodes(
    places: Seq<DiskLocation>,
    data_num: usize,
    code_num: usize,
    constraints: ConstraintsModel,
)
    requires
        data_num + code_num <= u32::MAX,
    ensures
        data_num == 0 || code_num == 0 || places.len() == 0 ==> ec_selection(
            places,
            data_num,
            code_num,
            constraints,
        ) is Err,
        data_num > 0 && code_num > 0 && places.len() > 0 && constraints.allow_degraded_failure_domains
            ==> (ec_selection(places, data_num, code_num, constraints) is Ok <==> (
        constraints.allow_unsafe_ec || data_num + code_num <= code_num * places.map_values(
            |place: DiskLocation| place.node_id,
        ).to_set().len())),
        !constraints.allow_degraded_failure_domains ==> (ec_selection(
            places,
            data_num,
            code_num,
            constraints,
        ) matches Ok(plan) ==> plan.safe_mode),
        ec_selection(places, data_num, code_num, constraints) matches Ok(plan) ==> plan.safe_mode
            == (plan.protection.rack_protected && plan.protection.node_protected) && plan.priority
            == constraints.failure_domain_priority && plan.protection.loss_budget == code_num,
{
    let total = (data_num + code_num) as nat;
    let priority = constraints.failure_domain_priority;
    if data_num > 0 && code_num > 0 && places.len() > 0 {
        lemma_nodes_as_set(places);
        lemma_nodes_of(places);
        law_distribution(places, total, code_num as nat, priority);
        law_distribution(places, total, total, priority);
        let nodes = nodes_of(places).len();
        assert(total <= total * nodes) by (nonlinear_arith)
            requires
                nodes >= 1,
                total >= 0,
        ;
        if let Some(entries) = crate::selector::ec::distributed(
            places,
            total,
            code_num as nat,
            priority,
        ) {
            lemma_node_peak(entries, entries.len(), code_num as nat);
            crate::selector::ec::lemma_single_blocks(places, entries, code_num as nat);
            lemma_peaks(entries, entries.len());
        }
    }
}

proof fn lemma_node_peak(entries: Seq<PlacementEntry>, n: nat, max: nat)
    requires
        n <= entries.len(),
        forall|node: u64| #[trigger] node_blocks(entries, node) <= max,
    ensures
        peak_node_blocks(entries, n) <= max,
    decreases n,
{
    if n > 0 {
        lemma_node_peak(entries, (n - 1) as nat, max);
        assert(node_blocks(entries, entries[n - 1].node_id) <= max);
    }
}

/// Blocks are counted by adding up the entries: all of them, those of a rack,
/// those of a node.
pub proof fn law_blocks_add_up(entries: Seq<PlacementEntry>, id: u64)
    ensures
        block_total(entries) == entries.fold_left(
            0int,
            |sum: int, entry: PlacementEntry| sum + entry.block_count,
        ),
        rack_blocks(entries, id) == entries.fold_left(
            0int,
            |sum: int, entry: PlacementEntry|
                if entry.rack_id == id {
                    sum + entry.block_count
                } else {
                    sum
                },
        ),
        node_blocks(entries, id) == entries.fold_left(
            0int,
            |sum: int, entry: PlacementEntry|
                if entry.node_id == id {
                    sum + entry.block_count
                } else {
                    sum
                },
        ),
    decreases entries.len(),
{
    reveal(Seq::fold_left);
    if entries.len() > 0 {
        law_blocks_add_up(entries.drop_last(), id);
    }
}

proof fn lemma_peaks_attained(entries: Seq<PlacementEntry>, n: nat)
    requires
        n <= entries.len(),
    ensures
        peak_rack_blocks(entries, n) == 0 || exists|i: int|
            0 <= i < n && rack_blocks(entries, (#[trigger] entries[i]).rack_id) == peak_rack_blocks(
                entries,
                n,
            ),
        peak_node_blocks(entries, n) == 0 || exists|i: int|
            0 <= i < n && node_blocks(entries, (#[trigger] entries[i]).node_id) == peak_node_blocks(
                entries,
                n,
            ),
    decreases n,
{
    if n > 0 {
        lemma_peaks_attained(entries, (n - 1) as nat);
        let i = n - 1;
        assert(entries[i] == entries[n - 1]);
    }
}

/// A plan tells of each domain the most blocks that the loss of one of them takes
/// away, and calls it protected exactly where no such loss exceeds the budget.
pub proof fn law_protection_is_what_a_loss_takes(entries: Seq<PlacementEntry>, loss_budget: u32)
    requires
        block_total(entries) <= u32::MAX,
    ensures
        ({
            let protection = protection_of(entries, loss_budget);
            &&& protection.loss_budget == loss_budget
            &&& protection.rack_protected <==> (forall|i: int|
                0 <= i < entries.len() ==> rack_blocks(entries, (#[trigger] entries[i]).rack_id)
                    <= loss_budget)
            &&& protection.node_protected <==> (forall|i: int|
                0 <= i < entries.len() ==> node_blocks(entries, (#[trigger] entries[i]).node_id)
                    <= loss_budget)
            &&& forall|i: int|
                0 <= i < entries.len() ==> rack_blocks(entries, (#[trigger] entries[i]).rack_id)
                    <= protection.max_fragments_per_rack && node_blocks(entries, entries[i].node_id)
                    <= protection.max_fragments_per_node
            &&& protection.max_fragments_per_rack > 0 ==> exists|i: int|
                0 <= i < entries.len() && rack_blocks(entries, (#[trigger] entries[i]).rack_id)
                    == protection.max_fragments_per_rack
            &&& protection.max_fragments_per_node > 0 ==> exists|i: int|
                0 <= i < entries.len() && node_blocks(entries, (#[trigger] entries[i]).node_id)
                    == protection.max_fragments_per_node
        }),
{
    lemma_peaks(entries, entries.len());
    lemma_peaks_attained(entries, entries.len());
}

/// An even share is the smallest number that, on every node, holds all blocks.
pub proof fn law_even_share_is_least(total: nat, nodes: nat)
    requires
        nodes > 0,
    ensures
        even_share(total, nodes) * nodes >= total,
        total > 0 ==> (even_share(total, nodes) - 1) * nodes < total,
{
    let sum = (total + nodes - 1) as int;
    let n = nodes as int;
    vstd::arithmetic::div_mod::lemma_fundamental_div_mod(sum, n);
    vstd::arithmetic::div_mod::lemma_mod_bound(sum, n);
    let share = sum / n;
    assert(share * n >= total && (share - 1) * n < total) by (nonlinear_arith)
        requires
            sum == n * share + sum % n,
            0 <= sum % n < n,
            sum == total + n - 1,
    ;
}

/// A finished erasure-coded plan is refused exactly where some node holds more than
/// the budget and unsafe placement is not allowed, or where a domain with a budget
/// is unprotected and that is not accepted; else it is what was asked for.
pub proof fn law_plans_are_refused_for_want_of_protection(
    entries: Seq<PlacementEntry>,
    loss_budget: u32,
    constraints: ConstraintsModel,
    ec_shape: bool,
)
    requires
        block_total(entries) <= u32::MAX,
    ensures
        ({
            let racks_kept = forall|i: int|
                0 <= i < entries.len() ==> rack_blocks(entries, (#[trigger] entries[i]).rack_id)
                    <= loss_budget;
            let nodes_kept = forall|i: int|
                0 <= i < entries.len() ==> node_blocks(entries, (#[trigger] entries[i]).node_id)
                    <= loss_budget;
            &&& finished_plan(entries, loss_budget, constraints, ec_shape) is Ok <==> (!ec_shape
                || nodes_kept || constraints.allow_unsafe_ec) && (loss_budget == 0 || (racks_kept
                && nodes_kept) || constraints.allow_degraded_failure_domains)
            &&& finished_plan(entries, loss_budget, constraints, ec_shape) matches Ok(plan)
                ==> plan.entries == entries && plan.safe_mode == (racks_kept && nodes_kept)
        }),
{
    law_protection_is_what_a_loss_takes(entries, loss_budget);
    lemma_peaks(entries, entries.len());
}

} // verus!
