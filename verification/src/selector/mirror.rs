//! Mirror placement: distinct nodes across distinct racks.
//!
//! One copy per rack when possible, the racks in random order to avoid hot spots.
//! If there are fewer racks than copies, the remaining copies go to distinct
//! nodes of the first rack, and of further racks only when its nodes are used up.
use rand::seq::SliceRandom;
use vstd::prelude::*;
use crate::arith::usize_to_u32;
use crate::selector::balance::{
    lemma_on_rack, lemma_rack_entries, nodes_have_one_rack, on_rack, rack_entries,
};
use crate::selector::ec::{has_room, spread_over, stands_on};
use crate::selector::{
    admitted_places, assess_plan, assessed_plan, collect_racks, healthy_dgs, lemma_countable,
    lemma_nodes_of, lemma_racks_of, node_blocks, nodes_of, one_block, peak_node_blocks,
    peak_rack_blocks, rack_blocks, racks_of, selection_model, ConstraintsModel,
    PlacementConstraints, PlacementEntry, PlacementError, PlacementErrorModel, PlacementPlan,
    PlanModel,
};
use crate::text::text;
use crate::topology::{DiskLocation, TopologySnapshot};

verus! {

/// `rand::seq::SliceRandom::shuffle` driven by `rand::thread_rng`: afterwards the
/// vector holds the same values as often as before. Their order is up to
/// chance.
#[verifier::external_body]
fn shuffle_ids(ids: &mut Vec<u64>)
    ensures
        final(ids)@.to_multiset() == old(ids)@.to_multiset(),
{
    ids.shuffle(&mut rand::thread_rng());
}

/// The first place from `from` on that stands on the rack and whose node holds
/// no copy.
pub open spec fn first_free(
    places: Seq<DiskLocation>,
    entries: Seq<PlacementEntry>,
    rack_id: u64,
    from: int,
) -> Option<int>
    decreases places.len() - from,
{
    if from >= places.len() {
        None
    } else if has_room(places[from], entries, 1, Some(rack_id)) {
        Some(from)
    } else {
        first_free(places, entries, rack_id, from + 1)
    }
}

/// The first rack from `from` on with a free node.
pub open spec fn free_rack(
    places: Seq<DiskLocation>,
    racks: Seq<u64>,
    entries: Seq<PlacementEntry>,
    from: int,
) -> Option<int>
    decreases racks.len() - from,
{
    if from >= racks.len() {
        None
    } else if first_free(places, entries, racks[from], 0) is Some {
        Some(from)
    } else {
        free_rack(places, racks, entries, from + 1)
    }
}

/// One copy on each rack in order, up to the number asked for.
pub open spec fn one_each(places: Seq<DiskLocation>, racks: Seq<u64>, copies: nat) -> Seq<
    PlacementEntry,
>
    decreases racks.len(),
{
    if racks.len() == 0 {
        Seq::empty()
    } else {
        let front = one_each(places, racks.drop_last(), copies);
        if front.len() >= copies {
            front
        } else {
            match first_free(places, front, racks.last(), 0) {
                Some(k) => front.push(one_block(places[k])),
                None => front,
            }
        }
    }
}

/// `entries` continued copy by copy, each on the first rack with a free node,
/// until there are `copies` of them or no node is free.
pub open spec fn filled(
    places: Seq<DiskLocation>,
    racks: Seq<u64>,
    entries: Seq<PlacementEntry>,
    copies: nat,
) -> Seq<PlacementEntry>
    decreases copies - entries.len(),
{
    if entries.len() >= copies {
        entries
    } else {
        match free_rack(places, racks, entries, 0) {
            Some(at) => filled(
                places,
                racks,
                entries.push(one_block(places[first_free(places, entries, racks[at], 0)->0])),
                copies,
            ),
            None => entries,
        }
    }
}

/// One copy on each rack in order; the remaining copies on the first rack, and
/// on a further one only where those before it have no free node.
pub open spec fn mirrored(places: Seq<DiskLocation>, racks: Seq<u64>, copies: nat) -> Seq<
    PlacementEntry,
> {
    filled(places, racks, one_each(places, racks, copies), copies)
}

/// The plan of a mirrored strip for one order of the racks, or why there is
/// none. All copies but one may be lost; a plan that the loss of a rack or of a
/// node would leave without a copy is no safe one, but it is given.
pub open spec fn mirror_selection(
    places: Seq<DiskLocation>,
    racks: Seq<u64>,
    copy_count: usize,
    constraints: ConstraintsModel,
) -> Result<PlanModel, PlacementErrorModel> {
    if copy_count == 0 {
        Err(PlacementErrorModel::InvalidShape("mirror copy_count must be non-zero"@))
    } else if places.len() == 0 {
        Err(PlacementErrorModel::NoHealthyDiskGroups)
    } else {
        let entries = mirrored(places, racks, copy_count as nat);
        if entries.len() < copy_count {
            Err(
                PlacementErrorModel::InsufficientNodes {
                    needed: copy_count,
                    available: entries.len() as usize,
                },
            )
        } else {
            Ok(assessed_plan(entries, (copy_count - 1) as u32, constraints))
        }
    }
}

/// The racks are those of the places, in some order.
pub open spec fn orders_racks(racks: Seq<u64>, places: Seq<DiskLocation>) -> bool {
    racks.to_multiset() == racks_of(places).to_multiset()
}

/// The outcome is that of a mirror selection for some order of the racks.
pub open spec fn is_mirror_selection(
    places: Seq<DiskLocation>,
    copy_count: usize,
    constraints: ConstraintsModel,
    outcome: Result<PlanModel, PlacementErrorModel>,
) -> bool {
    exists|racks: Seq<u64>|
        orders_racks(racks, places) && outcome == #[trigger] mirror_selection(
            places,
            racks,
            copy_count,
            constraints,
        )
}

/// The copies that can be lost can be counted, or there are not nodes enough
/// for the copies anyway.
pub open spec fn copies_countable(places: Seq<DiskLocation>, copy_count: usize) -> bool {
    copy_count <= u32::MAX || nodes_of(places).len() < copy_count
}

/// Every rack of the places has its turn.
pub open spec fn covers_racks(racks: Seq<u64>, places: Seq<DiskLocation>) -> bool {
    forall|i: int| 0 <= i < places.len() ==> racks.contains((#[trigger] places[i]).rack_id)
}

proof fn lemma_first_free(
    places: Seq<DiskLocation>,
    entries: Seq<PlacementEntry>,
    rack_id: u64,
    from: int,
)
    requires
        0 <= from,
    ensures
        match first_free(places, entries, rack_id, from) {
            Some(k) => from <= k < places.len() && has_room(places[k], entries, 1, Some(rack_id))
                && forall|j: int|
                from <= j < k ==> !has_room(#[trigger] places[j], entries, 1, Some(rack_id)),
            None => forall|j: int|
                from <= j < places.len() ==> !has_room(#[trigger] places[j], entries, 1, Some(rack_id)),
        },
    decreases places.len() - from,
{
    if from < places.len() && !has_room(places[from], entries, 1, Some(rack_id)) {
        lemma_first_free(places, entries, rack_id, from + 1);
    }
}

proof fn lemma_free_rack(
    places: Seq<DiskLocation>,
    racks: Seq<u64>,
    entries: Seq<PlacementEntry>,
    from: int,
)
    requires
        0 <= from <= racks.len(),
    ensures
        match free_rack(places, racks, entries, from) {
            Some(at) => from <= at < racks.len() && first_free(places, entries, racks[at], 0) is Some,
            None => forall|t: int|
                from <= t < racks.len() ==> first_free(places, entries, #[trigger] racks[t], 0) is None,
        },
    decreases racks.len() - from,
{
    if from < racks.len() {
        lemma_free_rack(places, racks, entries, from + 1);
    }
}

proof fn lemma_push_copy(places: Seq<DiskLocation>, entries: Seq<PlacementEntry>, k: int, rack_id: u64)
    requires
        0 <= k < places.len(),
        spread_over(places, entries, 1),
        has_room(places[k], entries, 1, Some(rack_id)),
    ensures
        spread_over(places, entries.push(one_block(places[k])), 1),
{
    let longer = entries.push(one_block(places[k]));
    assert(longer.drop_last() =~= entries);
    assert forall|i: int| 0 <= i < longer.len() implies stands_on(places, #[trigger] longer[i]) by {
        if i < entries.len() {
            assert(longer[i] == entries[i]);
        } else {
            assert(one_block(places[k]) == longer[i]);
        }
    }
    assert forall|node: u64| #[trigger] node_blocks(longer, node) <= 1 by {
        assert(node_blocks(entries, node) <= 1);
    }
}

proof fn lemma_one_each(places: Seq<DiskLocation>, racks: Seq<u64>, copies: nat)
    ensures
        spread_over(places, one_each(places, racks, copies), 1),
        one_each(places, racks, copies).len() <= copies,
        one_each(places, racks, copies).len() <= nodes_of(places).len(),
    decreases racks.len(),
{
    let done = one_each(places, racks, copies);
    if racks.len() == 0 {
        assert(spread_over(places, done, 1));
    } else {
        let front = one_each(places, racks.drop_last(), copies);
        lemma_one_each(places, racks.drop_last(), copies);
        if front.len() < copies {
            lemma_first_free(places, front, racks.last(), 0);
            match first_free(places, front, racks.last(), 0) {
                Some(k) => {
                    lemma_push_copy(places, front, k, racks.last());
                },
                None => {},
            }
        }
    }
    crate::selector::ec::lemma_node_count_bound(places, done, 1);
}

proof fn lemma_filled(
    places: Seq<DiskLocation>,
    racks: Seq<u64>,
    entries: Seq<PlacementEntry>,
    copies: nat,
)
    requires
        covers_racks(racks, places),
        entries.len() <= copies,
        spread_over(places, entries, 1),
        entries.len() <= nodes_of(places).len(),
    ensures
        ({
            let done = filled(places, racks, entries, copies);
            &&& spread_over(places, done, 1)
            &&& entries.len() <= done.len()
            &&& done.take(entries.len() as int) == entries
            &&& done.len() == (if copies <= nodes_of(places).len() {
                copies
            } else {
                nodes_of(places).len()
            })
        }),
    decreases copies - entries.len(),
{
    let nodes = nodes_of(places);
    lemma_nodes_of(places);
    assert(entries.take(entries.len() as int) =~= entries);
    if entries.len() < copies {
        lemma_free_rack(places, racks, entries, 0);
        match free_rack(places, racks, entries, 0) {
            Some(at) => {
                lemma_first_free(places, entries, racks[at], 0);
                let k = first_free(places, entries, racks[at], 0)->0;
                lemma_push_copy(places, entries, k, racks[at]);
                let longer = entries.push(one_block(places[k]));
                crate::selector::ec::lemma_node_count_bound(places, longer, 1);
                lemma_filled(places, racks, longer, copies);
                let done = filled(places, racks, longer, copies);
                assert(done.take(entries.len() as int) =~= done.take(longer.len() as int).take(
                    entries.len() as int,
                ));
                assert(longer.take(entries.len() as int) =~= entries);
            },
            None => {
                assert forall|i: int| 0 <= i < nodes.len() implies node_blocks(
                    entries,
                    #[trigger] nodes[i],
                ) == 1 by {
                    assert(nodes.contains(nodes[i]));
                    let j = choose|j: int| 0 <= j < places.len() && (#[trigger] places[j]).node_id
                        == nodes[i];
                    assert(racks.contains(places[j].rack_id));
                    let t = choose|t: int| 0 <= t < racks.len() && racks[t] == places[j].rack_id;
                    assert(first_free(places, entries, racks[t], 0) is None);
                    lemma_first_free(places, entries, racks[t], 0);
                    assert(!has_room(places[j], entries, 1, Some(racks[t])));
                    assert(node_blocks(entries, nodes[i]) <= 1);
                }
                crate::selector::ec::lemma_full_nodes(places, entries, 1);
            },
        }
    }
}

/// Whatever the order of the racks: as many copies are placed as there are
/// nodes, up to the number asked for, each on a node of its own.
pub proof fn law_mirror_copies(places: Seq<DiskLocation>, racks: Seq<u64>, copies: nat)
    requires
        places.len() > 0,
        orders_racks(racks, places),
    ensures
        ({
            let done = mirrored(places, racks, copies);
            &&& spread_over(places, done, 1)
            &&& done.len() == (if copies <= nodes_of(places).len() {
                copies
            } else {
                nodes_of(places).len()
            })
        }),
{
    lemma_same_racks(places, racks);
    lemma_one_each(places, racks, copies);
    lemma_filled(places, racks, one_each(places, racks, copies), copies);
}

proof fn lemma_same_racks(places: Seq<DiskLocation>, racks: Seq<u64>)
    requires
        places.len() > 0,
        orders_racks(racks, places),
    ensures
        covers_racks(racks, places),
        racks.len() == racks_of(places).len(),
        racks.len() > 0,
        racks.no_duplicates(),
        forall|i: int| 0 <= i < racks.len() ==> racks_of(places).contains(#[trigger] racks[i]),
{
    broadcast use vstd::seq_lib::group_to_multiset_ensures;

    let all = racks_of(places);
    lemma_racks_of(places);
    assert(racks.len() == racks.to_multiset().len());
    assert(all.len() == all.to_multiset().len());
    assert forall|i: int| 0 <= i < places.len() implies racks.contains((#[trigger] places[i]).rack_id) by {
        let id = places[i].rack_id;
        assert(all.contains(id));
        assert(all.to_multiset().count(id) > 0);
        assert(racks.to_multiset().count(id) > 0);
    }
    assert forall|i: int| 0 <= i < racks.len() implies all.contains(#[trigger] racks[i]) by {
        assert(racks.contains(racks[i]));
        assert(racks.to_multiset().count(racks[i]) > 0);
    }
    assert(all.no_duplicates());
    all.lemma_multiset_has_no_duplicates();
    assert(racks.to_multiset() == all.to_multiset());
    assert forall|x: u64| #[trigger] racks.to_multiset().contains(x) implies racks.to_multiset().count(
        x,
    ) == 1 by {
        assert(all.to_multiset().contains(x));
    }
    racks.lemma_multiset_has_no_duplicates_conv();
}

/// Some place stands on the rack.
spec fn rack_occurs(places: Seq<DiskLocation>, rack_id: u64) -> bool {
    exists|k: int| 0 <= k < places.len() && (#[trigger] places[k]).rack_id == rack_id
}

proof fn lemma_one_copy_per_rack(places: Seq<DiskLocation>, racks: Seq<u64>, copies: nat)
    requires
        racks.no_duplicates(),
        nodes_have_one_rack(places),
        forall|i: int| 0 <= i < racks.len() ==> rack_occurs(places, #[trigger] racks[i]),
    ensures
        ({
            let spread = one_each(places, racks, copies);
            &&& spread.len() == (if copies <= racks.len() {
                copies
            } else {
                racks.len()
            })
            &&& forall|i: int| 0 <= i < spread.len() ==> (#[trigger] spread[i]).rack_id == racks[i]
        }),
    decreases racks.len(),
{
    if racks.len() > 0 {
        let fewer = racks.drop_last();
        assert forall|i: int| 0 <= i < fewer.len() implies rack_occurs(places, #[trigger] fewer[i]) by {
            assert(fewer[i] == racks[i]);
        }
        lemma_one_copy_per_rack(places, fewer, copies);
        lemma_one_each(places, fewer, copies);
        let front = one_each(places, fewer, copies);
        if front.len() < copies {
            let n = racks.len() - 1;
            assert(racks.last() == racks[n]);
            assert(rack_occurs(places, racks[n]));
            let k = choose|k: int| 0 <= k < places.len() && (#[trigger] places[k]).rack_id == racks[n];
            assert(node_blocks(front, places[k].node_id) < 1) by {
                if node_blocks(front, places[k].node_id) != 0 {
                    lemma_occupied(front, places[k].node_id);
                    let i = choose|i: int|
                        0 <= i < front.len() && (#[trigger] front[i]).node_id == places[k].node_id;
                    assert(stands_on(places, front[i]));
                    let m = choose|m: int| 0 <= m < places.len() && one_block(#[trigger] places[m])
                        == front[i];
                    assert(places[m].node_id == places[k].node_id);
                    assert(places[m].rack_id == fewer[i]);
                    assert(racks[i] == racks[n]);
                }
                crate::selector::lemma_blocks_bounded(front, places[k].node_id);
            }
            lemma_first_free(places, front, racks[n], 0);
            assert(has_room(places[k], front, 1, Some(racks[n])));
            let spread = one_each(places, racks, copies);
            assert forall|i: int| 0 <= i < spread.len() implies (#[trigger] spread[i]).rack_id
                == racks[i] by {
                if i < n {
                    assert(spread[i] == front[i]);
                    assert(fewer[i] == racks[i]);
                }
            }
        }
    }
}

/// A node that holds blocks is named by some entry.
pub proof fn lemma_occupied(entries: Seq<PlacementEntry>, node: u64)
    requires
        node_blocks(entries, node) != 0,
    ensures
        exists|i: int| 0 <= i < entries.len() && (#[trigger] entries[i]).node_id == node,
    decreases entries.len(),
{
    if entries.len() > 0 {
        if entries.last().node_id == node {
            assert(entries[entries.len() - 1].node_id == node);
        } else {
            lemma_occupied(entries.drop_last(), node);
            let i = choose|i: int|
                0 <= i < entries.drop_last().len() && (#[trigger] entries.drop_last()[i]).node_id
                    == node;
            assert(entries[i].node_id == node);
        }
    }
}

proof fn lemma_rack_places(places: Seq<DiskLocation>, racks: Seq<u64>)
    requires
        places.len() > 0,
        orders_racks(racks, places),
    ensures
        racks.no_duplicates(),
        covers_racks(racks, places),
        forall|i: int| 0 <= i < racks.len() ==> rack_occurs(places, #[trigger] racks[i]),
{
    lemma_same_racks(places, racks);
    lemma_racks_of(places);
    assert forall|i: int| 0 <= i < racks.len() implies rack_occurs(places, #[trigger] racks[i]) by {
        assert(racks_of(places).contains(racks[i]));
    }
}

/// Whatever the order of the racks: where every node stands on one rack, the
/// first copies stand on the racks in order, one on each. So no two copies share
/// a rack while there are racks enough, and every rack is used where there are
/// not.
pub proof fn law_one_copy_per_rack(
    places: Seq<DiskLocation>,
    racks: Seq<u64>,
    copies: nat,
    i: int,
)
    requires
        places.len() > 0,
        orders_racks(racks, places),
        nodes_have_one_rack(places),
        0 <= i < copies,
        i < racks.len(),
    ensures
        racks.no_duplicates(),
        i < mirrored(places, racks, copies).len(),
        mirrored(places, racks, copies)[i].rack_id == racks[i],
{
    lemma_rack_places(places, racks);
    lemma_one_copy_per_rack(places, racks, copies);
    lemma_one_each(places, racks, copies);
    let spread = one_each(places, racks, copies);
    lemma_filled(places, racks, spread, copies);
    let done = mirrored(places, racks, copies);
    assert(done.take(spread.len() as int)[i] == spread[i]);
}

/// A rack with more nodes than copies has a free node.
proof fn lemma_rack_has_room(places: Seq<DiskLocation>, entries: Seq<PlacementEntry>, rack_id: u64)
    requires
        spread_over(places, entries, 1),
        nodes_have_one_rack(places),
        rack_blocks(entries, rack_id) < nodes_of(on_rack(places, rack_id)).len(),
    ensures
        first_free(places, entries, rack_id, 0) is Some,
{
    lemma_first_free(places, entries, rack_id, 0);
    if first_free(places, entries, rack_id, 0) is None {
        let rows = on_rack(places, rack_id);
        let own = rack_entries(entries, rack_id);
        let nodes = nodes_of(rows);
        lemma_rack_entries(places, entries, rack_id, 1);
        lemma_on_rack(places, rack_id);
        lemma_nodes_of(rows);
        assert forall|i: int| 0 <= i < nodes.len() implies node_blocks(own, #[trigger] nodes[i]) == 1 by {
            assert(nodes.contains(nodes[i]));
            let j = choose|j: int| 0 <= j < rows.len() && (#[trigger] rows[j]).node_id == nodes[i];
            assert(places.contains(rows[j]));
            let k = choose|k: int| 0 <= k < places.len() && places[k] == rows[j];
            assert(!has_room(places[k], entries, 1, Some(rack_id)));
            assert(node_blocks(entries, nodes[i]) <= 1);
        }
        crate::selector::ec::lemma_full_nodes(rows, own, 1);
    }
}

proof fn lemma_rest_on_first_rack(
    places: Seq<DiskLocation>,
    racks: Seq<u64>,
    entries: Seq<PlacementEntry>,
    copies: nat,
    i: int,
)
    requires
        racks.len() > 0,
        spread_over(places, entries, 1),
        nodes_have_one_rack(places),
        entries.len() <= i < copies,
        rack_blocks(entries, racks[0]) + copies - entries.len() <= nodes_of(
            on_rack(places, racks[0]),
        ).len(),
    ensures
        filled(places, racks, entries, copies).len() == copies,
        filled(places, racks, entries, copies).take(entries.len() as int) == entries,
        filled(places, racks, entries, copies)[i].rack_id == racks[0],
    decreases copies - entries.len(),
{
    lemma_rack_has_room(places, entries, racks[0]);
    lemma_first_free(places, entries, racks[0], 0);
    let k = first_free(places, entries, racks[0], 0)->0;
    assert(free_rack(places, racks, entries, 0) == Some(0int));
    lemma_push_copy(places, entries, k, racks[0]);
    let longer = entries.push(one_block(places[k]));
    assert(longer.drop_last() =~= entries);
    let done = filled(places, racks, longer, copies);
    assert(filled(places, racks, entries, copies) == done);
    if longer.len() < copies {
        lemma_rest_on_first_rack(
            places,
            racks,
            longer,
            copies,
            if i > entries.len() {
                i
            } else {
                i + 1
            },
        );
    } else {
        assert(done.take(longer.len() as int) =~= longer);
    }
    assert(done.take(entries.len() as int) =~= done.take(longer.len() as int).take(
        entries.len() as int,
    ));
    assert(longer.take(entries.len() as int) =~= entries);
    assert(done.take(longer.len() as int)[entries.len() as int] == done[entries.len() as int]);
    assert(longer[entries.len() as int] == one_block(places[k]));
}

proof fn lemma_first_rack_blocks(spread: Seq<PlacementEntry>, racks: Seq<u64>)
    requires
        racks.no_duplicates(),
        0 < spread.len() <= racks.len(),
        forall|i: int| 0 <= i < spread.len() ==> (#[trigger] spread[i]).rack_id == racks[i],
        forall|i: int| 0 <= i < spread.len() ==> (#[trigger] spread[i]).block_count == 1,
    ensures
        rack_blocks(spread, racks[0]) == 1,
    decreases spread.len(),
{
    let front = spread.drop_last();
    assert(spread.last() == spread[spread.len() - 1]);
    if front.len() > 0 {
        assert forall|i: int| 0 <= i < front.len() implies (#[trigger] front[i]).rack_id == racks[i]
            && front[i].block_count == 1 by {
            assert(front[i] == spread[i]);
        }
        lemma_first_rack_blocks(front, racks);
        assert(racks[spread.len() - 1] != racks[0]);
    } else {
        assert(rack_blocks(front, racks[0]) == 0);
    }
}

proof fn lemma_block_each(places: Seq<DiskLocation>, entries: Seq<PlacementEntry>)
    requires
        spread_over(places, entries, 1),
    ensures
        forall|i: int| 0 <= i < entries.len() ==> (#[trigger] entries[i]).block_count == 1,
{
    assert forall|i: int| 0 <= i < entries.len() implies (#[trigger] entries[i]).block_count == 1 by {
        assert(stands_on(places, entries[i]));
    }
}

/// Where every node stands on one rack and the first rack has nodes enough, the
/// copies that are more than the racks all stand on the first rack.
pub proof fn law_remaining_copies_on_first_rack(
    places: Seq<DiskLocation>,
    racks: Seq<u64>,
    copies: nat,
    i: int,
)
    requires
        places.len() > 0,
        orders_racks(racks, places),
        nodes_have_one_rack(places),
        copies - racks.len() + 1 <= nodes_of(on_rack(places, racks[0])).len(),
        racks.len() <= i < copies,
    ensures
        mirrored(places, racks, copies).len() == copies,
        mirrored(places, racks, copies)[i].rack_id == racks[0],
{
    lemma_rack_places(places, racks);
    lemma_same_racks(places, racks);
    lemma_one_copy_per_rack(places, racks, copies);
    lemma_one_each(places, racks, copies);
    let spread = one_each(places, racks, copies);
    lemma_block_each(places, spread);
    lemma_first_rack_blocks(spread, racks);
    lemma_rest_on_first_rack(places, racks, spread, copies, i);
}

proof fn lemma_pattern_count(entries: Seq<PlacementEntry>, racks: Seq<u64>, n: int, t: int)
    requires
        racks.no_duplicates(),
        0 <= n <= entries.len(),
        0 <= t < racks.len(),
        forall|i: int| 0 <= i < entries.len() ==> (#[trigger] entries[i]).block_count == 1,
        forall|i: int|
            0 <= i < entries.len() ==> (#[trigger] entries[i]).rack_id == racks[if i < racks.len() {
                i
            } else {
                0
            }],
    ensures
        rack_blocks(entries.take(n), racks[t]) == (if t < n {
            1int
        } else {
            0
        }) + (if t == 0 && n > racks.len() {
            n - racks.len()
        } else {
            0
        }),
    decreases n,
{
    let front = entries.take(n);
    if n > 0 {
        lemma_pattern_count(entries, racks, n - 1, t);
        assert(front.drop_last() =~= entries.take(n - 1));
        assert(front.last() == entries[n - 1]);
    }
}

/// Where every node stands on one rack, there are no fewer copies than racks and
/// the first rack has nodes enough: it holds all the remaining copies besides its
/// own, and every other rack holds one.
pub proof fn law_copies_by_rack(
    places: Seq<DiskLocation>,
    racks: Seq<u64>,
    copies: nat,
    t: int,
)
    requires
        places.len() > 0,
        orders_racks(racks, places),
        nodes_have_one_rack(places),
        racks.len() <= copies,
        copies - racks.len() + 1 <= nodes_of(on_rack(places, racks[0])).len(),
        0 <= t < racks.len(),
    ensures
        mirrored(places, racks, copies).len() == copies,
        rack_blocks(mirrored(places, racks, copies), racks[t]) == (if t == 0 {
            copies - racks.len() + 1
        } else {
            1
        }),
{
    let done = mirrored(places, racks, copies);
    lemma_rack_places(places, racks);
    law_mirror_copies(places, racks, copies);
    if racks.len() < copies {
        law_remaining_copies_on_first_rack(places, racks, copies, racks.len() as int);
    } else {
        law_one_copy_per_rack(places, racks, copies, racks.len() - 1);
    }
    lemma_block_each(places, done);
    assert forall|i: int| 0 <= i < done.len() implies (#[trigger] done[i]).rack_id == racks[if i
        < racks.len() {
        i
    } else {
        0
    }] by {
        if i < racks.len() {
            law_one_copy_per_rack(places, racks, copies, i);
        } else {
            law_remaining_copies_on_first_rack(places, racks, copies, i);
        }
    }
    lemma_pattern_count(done, racks, done.len() as int, t);
    assert(done.take(done.len() as int) =~= done);
}

proof fn lemma_rack_share(entries: Seq<PlacementEntry>, rack_id: u64, other: int)
    requires
        forall|i: int| 0 <= i < entries.len() ==> (#[trigger] entries[i]).block_count == 1,
        0 <= other < entries.len(),
        entries[other].rack_id != rack_id,
    ensures
        rack_blocks(entries, rack_id) <= entries.len() - 1,
    decreases entries.len(),
{
    let front = entries.drop_last();
    assert(entries.last() == entries[entries.len() - 1]);
    assert forall|i: int| 0 <= i < front.len() implies (#[trigger] front[i]).block_count == 1 by {
        assert(front[i] == entries[i]);
    }
    lemma_rack_total(front, rack_id);
    if other < front.len() {
        assert(front[other] == entries[other]);
        lemma_rack_share(front, rack_id, other);
    }
}

proof fn lemma_rack_total(entries: Seq<PlacementEntry>, rack_id: u64)
    requires
        forall|i: int| 0 <= i < entries.len() ==> (#[trigger] entries[i]).block_count == 1,
    ensures
        0 <= rack_blocks(entries, rack_id) <= entries.len(),
        (forall|i: int| 0 <= i < entries.len() ==> (#[trigger] entries[i]).rack_id == rack_id)
            ==> rack_blocks(entries, rack_id) == entries.len(),
    decreases entries.len(),
{
    if entries.len() > 0 {
        let front = entries.drop_last();
        assert(entries.last() == entries[entries.len() - 1]);
        assert forall|i: int| 0 <= i < front.len() implies (#[trigger] front[i]).block_count == 1 by {
            assert(front[i] == entries[i]);
        }
        lemma_rack_total(front, rack_id);
        if forall|i: int| 0 <= i < entries.len() ==> (#[trigger] entries[i]).rack_id == rack_id {
            assert forall|i: int| 0 <= i < front.len() implies (#[trigger] front[i]).rack_id
                == rack_id by {
                assert(front[i] == entries[i]);
            }
        }
    }
}

/// Why mirrored copies cannot be placed; none where they can.
pub open spec fn mirror_refusal(places: Seq<DiskLocation>, copy_count: usize) -> Option<
    PlacementErrorModel,
> {
    if copy_count == 0 {
        Some(PlacementErrorModel::InvalidShape("mirror copy_count must be non-zero"@))
    } else if places.len() == 0 {
        Some(PlacementErrorModel::NoHealthyDiskGroups)
    } else if nodes_of(places).len() < copy_count {
        Some(
            PlacementErrorModel::InsufficientNodes {
                needed: copy_count,
                available: nodes_of(places).len() as usize,
            },
        )
    } else {
        None
    }
}

/// Whether there is a plan, and if not why, does not depend on the order of the
/// racks: there is one exactly where there are nodes enough for the copies.
pub proof fn law_mirror_refusal(
    places: Seq<DiskLocation>,
    racks: Seq<u64>,
    copy_count: usize,
    constraints: ConstraintsModel,
)
    requires
        orders_racks(racks, places),
    ensures
        match mirror_selection(places, racks, copy_count, constraints) {
            Ok(plan) => mirror_refusal(places, copy_count) is None,
            Err(error) => mirror_refusal(places, copy_count) == Some(error),
        },
{
    if copy_count > 0 && places.len() > 0 {
        law_mirror_copies(places, racks, copy_count as nat);
    }
}

proof fn lemma_peak_rack(entries: Seq<PlacementEntry>, n: nat, most: int)
    requires
        n <= entries.len(),
        0 <= most,
        forall|i: int|
            0 <= i < n ==> rack_blocks(entries, (#[trigger] entries[i]).rack_id) <= most,
    ensures
        peak_rack_blocks(entries, n) <= most,
    decreases n,
{
    if n > 0 {
        assert(rack_blocks(entries, entries[n - 1].rack_id) <= most);
        lemma_peak_rack(entries, (n - 1) as nat, most);
    }
}

proof fn lemma_peak_node(entries: Seq<PlacementEntry>, n: nat, most: int)
    requires
        n <= entries.len(),
        0 <= most,
        forall|node: u64| #[trigger] node_blocks(entries, node) <= most,
    ensures
        peak_node_blocks(entries, n) <= most,
    decreases n,
{
    if n > 0 {
        assert(node_blocks(entries, entries[n - 1].node_id) <= most);
        lemma_peak_node(entries, (n - 1) as nat, most);
    }
}

/// Where every node stands on one rack, a plan is safe exactly where it has two
/// copies or more and the places stand on two racks or more.
pub proof fn law_safe_mirror(
    places: Seq<DiskLocation>,
    racks: Seq<u64>,
    copy_count: usize,
    constraints: ConstraintsModel,
)
    requires
        orders_racks(racks, places),
        nodes_have_one_rack(places),
        copies_countable(places, copy_count),
    ensures
        mirror_selection(places, racks, copy_count, constraints) matches Ok(plan)
            ==> plan.safe_mode == (copy_count > 1 && racks_of(places).len() > 1),
{
    if copy_count > 0 && places.len() > 0 {
        let done = mirrored(places, racks, copy_count as nat);
        law_mirror_copies(places, racks, copy_count as nat);
        lemma_same_racks(places, racks);
        if nodes_of(places).len() >= copy_count {
            lemma_block_each(places, done);
            lemma_peak_node(done, done.len(), 1);
            crate::selector::lemma_peaks(done, done.len());
            lemma_racks_of(places);
            if racks.len() == 1 {
                assert forall|i: int| 0 <= i < done.len() implies (#[trigger] done[i]).rack_id
                    == racks[0] by {
                    assert(stands_on(places, done[i]));
                    let m = choose|m: int| 0 <= m < places.len() && one_block(#[trigger] places[m])
                        == done[i];
                    assert(racks.contains(places[m].rack_id));
                }
                lemma_rack_total(done, racks[0]);
                assert(done[0].rack_id == racks[0]);
                assert forall|i: int| 0 <= i < done.len() implies rack_blocks(
                    done,
                    (#[trigger] done[i]).rack_id,
                ) <= done.len() by {}
                lemma_peak_rack(done, done.len(), done.len() as int);
                assert(peak_rack_blocks(done, done.len()) == copy_count);
            } else if copy_count > 1 {
                law_one_copy_per_rack(places, racks, copy_count as nat, 0);
                law_one_copy_per_rack(places, racks, copy_count as nat, 1);
                assert(racks[0] != racks[1]);
                assert forall|i: int| 0 <= i < done.len() implies rack_blocks(
                    done,
                    (#[trigger] done[i]).rack_id,
                ) <= done.len() - 1 by {
                    if done[0].rack_id != done[i].rack_id {
                        lemma_rack_share(done, done[i].rack_id, 0);
                    } else {
                        lemma_rack_share(done, done[i].rack_id, 1);
                    }
                }
                lemma_peak_rack(done, done.len(), done.len() - 1);
            } else {
                assert(done[0].block_count == 1);
                lemma_single(done);
            }
        }
    }
}

proof fn lemma_single(entries: Seq<PlacementEntry>)
    requires
        entries.len() == 1,
        entries[0].block_count == 1,
    ensures
        peak_rack_blocks(entries, 1) == 1,
        peak_node_blocks(entries, 1) == 1,
{
    reveal_with_fuel(peak_rack_blocks, 2);
    reveal_with_fuel(peak_node_blocks, 2);
    reveal_with_fuel(rack_blocks, 2);
    reveal_with_fuel(node_blocks, 2);
    assert(entries.last() == entries[0]);
}

/// The entry is one block on a place, the first on its rack.
pub open spec fn is_first_of_rack(
    places: Seq<DiskLocation>,
    entry: PlacementEntry,
) -> bool {
    exists|k: int|
        0 <= k < places.len() && entry == one_block(#[trigger] places[k]) && forall|j: int|
            0 <= j < k ==> (#[trigger] places[j]).rack_id != entry.rack_id
}

proof fn lemma_first_copy(places: Seq<DiskLocation>, racks: Seq<u64>)
    requires
        racks.len() > 0,
        rack_occurs(places, racks[0]),
    ensures
        one_each(places, racks, 1).len() == 1,
        is_first_of_rack(places, one_each(places, racks, 1)[0]),
    decreases racks.len(),
{
    let none = Seq::<PlacementEntry>::empty();
    if racks.len() == 1 {
        assert(racks.drop_last().len() == 0);
        assert(racks.last() == racks[0]);
        assert(one_each(places, racks.drop_last(), 1) == none);
        lemma_first_free(places, none, racks[0], 0);
        let m = choose|m: int| 0 <= m < places.len() && (#[trigger] places[m]).rack_id == racks[0];
        assert(node_blocks(none, places[m].node_id) == 0);
        assert(has_room(places[m], none, 1, Some(racks[0])));
        let k = first_free(places, none, racks[0], 0)->0;
        let entry = one_block(places[k]);
        assert forall|j: int| 0 <= j < k implies (#[trigger] places[j]).rack_id != entry.rack_id by {
            assert(!has_room(places[j], none, 1, Some(racks[0])));
            assert(node_blocks(none, places[j].node_id) == 0);
        }
    } else {
        assert(racks.drop_last()[0] == racks[0]);
        lemma_first_copy(places, racks.drop_last());
    }
}

/// A single copy is placed wherever there is a place, and stands on the first
/// place of a rack.
pub proof fn lemma_single_copy(
    places: Seq<DiskLocation>,
    racks: Seq<u64>,
    constraints: ConstraintsModel,
)
    requires
        places.len() > 0,
        orders_racks(racks, places),
    ensures
        mirror_selection(places, racks, 1, constraints) matches Ok(plan) && plan.entries.len() == 1
            && is_first_of_rack(places, plan.entries[0]),
{
    lemma_rack_places(places, racks);
    lemma_same_racks(places, racks);
    lemma_first_copy(places, racks);
}

proof fn lemma_used_node(entries: Seq<PlacementEntry>, at: int)
    requires
        0 <= at < entries.len(),
        entries[at].block_count >= 1,
    ensures
        node_blocks(entries, entries[at].node_id) >= 1,
    decreases entries.len(),
{
    let front = entries.drop_last();
    crate::selector::lemma_blocks_bounded(front, entries[at].node_id);
    if at < front.len() {
        assert(front[at] == entries[at]);
        lemma_used_node(front, at);
    } else {
        assert(entries.last() == entries[at]);
    }
}

fn node_is_free(places: &[DiskLocation], entries: &[PlacementEntry], node_id: u64) -> (r: bool)
    requires
        spread_over(places@, entries@, 1),
    ensures
        r == (node_blocks(entries@, node_id) < 1),
{
    proof {
        lemma_block_each(places@, entries@);
    }
    let mut i: usize = 0;
    while i < entries.len()
        invariant
            i <= entries.len(),
            forall|j: int| 0 <= j < entries@.len() ==> (#[trigger] entries@[j]).block_count == 1,
            forall|j: int| 0 <= j < i ==> (#[trigger] entries@[j]).node_id != node_id,
        decreases entries.len() - i,
    {
        if entries[i].node_id == node_id {
            proof {
                lemma_used_node(entries@, i as int);
            }
            return false;
        }
        i = i + 1;
    }
    proof {
        if node_blocks(entries@, node_id) != 0 {
            lemma_occupied(entries@, node_id);
        }
    }
    true
}

fn find_free(places: &[DiskLocation], entries: &[PlacementEntry], rack_id: u64) -> (r: Option<usize>)
    requires
        spread_over(places@, entries@, 1),
    ensures
        match r {
            Some(k) => first_free(places@, entries@, rack_id, 0) == Some(k as int) && k < places@.len(),
            None => first_free(places@, entries@, rack_id, 0) is None,
        },
{
    let mut i: usize = 0;
    while i < places.len()
        invariant
            i <= places.len(),
            spread_over(places@, entries@, 1),
            first_free(places@, entries@, rack_id, 0) == first_free(
                places@,
                entries@,
                rack_id,
                i as int,
            ),
        decreases places.len() - i,
    {
        let place = places[i];
        if place.rack_id == rack_id && node_is_free(places, entries, place.node_id) {
            return Some(i);
        }
        i = i + 1;
    }
    None
}

fn block_at(place: DiskLocation) -> (r: PlacementEntry)
    ensures
        r == one_block(place),
{
    PlacementEntry {
        rack_id: place.rack_id,
        node_id: place.node_id,
        disk_group_id: place.disk_group_id,
        block_count: 1,
    }
}

/// Places one copy on each rack in the given order, and the remaining copies on
/// the first rack that still has a free node.
pub fn select_in_order(places: &[DiskLocation], racks: &[u64], copy_count: usize) -> (r: Vec<
    PlacementEntry,
>)
    ensures
        r@ == mirrored(places@, racks@, copy_count as nat),
        spread_over(places@, r@, 1),
        r@.len() <= copy_count,
{
    let mut entries: Vec<PlacementEntry> = Vec::new();
    let mut i: usize = 0;
    assert(racks@.take(0) =~= Seq::<u64>::empty());
    while i < racks.len()
        invariant
            i <= racks@.len(),
            racks@.len() == racks.len(),
            entries@ == one_each(places@, racks@.take(i as int), copy_count as nat),
        decreases racks.len() - i,
    {
        proof {
            assert(racks@.take(i + 1).drop_last() =~= racks@.take(i as int));
            assert(racks@.take(i + 1).last() == racks@[i as int]);
            lemma_one_each(places@, racks@.take(i as int), copy_count as nat);
        }
        if entries.len() < copy_count {
            match find_free(places, &entries, racks[i]) {
                Some(k) => {
                    entries.push(block_at(places[k]));
                },
                None => {},
            }
        }
        i = i + 1;
    }
    proof {
        assert(racks@.take(i as int) =~= racks@);
        lemma_one_each(places@, racks@, copy_count as nat);
    }
    while entries.len() < copy_count
        invariant
            entries@.len() <= copy_count,
            spread_over(places@, entries@, 1),
            mirrored(places@, racks@, copy_count as nat) == filled(
                places@,
                racks@,
                entries@,
                copy_count as nat,
            ),
        decreases copy_count - entries.len(),
    {
        let mut found: Option<usize> = None;
        let mut at: usize = 0;
        while at < racks.len() && found.is_none()
            invariant
                at <= racks@.len(),
                racks@.len() == racks.len(),
                spread_over(places@, entries@, 1),
                match found {
                    Some(k) => k < places@.len() && ({
                        let turn = free_rack(places@, racks@, entries@, 0);
                        &&& turn is Some
                        &&& 0 <= turn->0 < racks@.len()
                        &&& first_free(places@, entries@, racks@[turn->0], 0) == Some(k as int)
                    }),
                    None => free_rack(places@, racks@, entries@, 0) == free_rack(
                        places@,
                        racks@,
                        entries@,
                        at as int,
                    ),
                },
            decreases racks.len() - at,
        {
            found = find_free(places, &entries, racks[at]);
            at = at + 1;
        }
        match found {
            Some(k) => {
                proof {
                    let turn = free_rack(places@, racks@, entries@, 0);
                    lemma_first_free(places@, entries@, racks@[turn->0], 0);
                    lemma_push_copy(places@, entries@, k as int, racks@[turn->0]);
                }
                entries.push(block_at(places[k]));
            },
            None => {
                return entries;
            },
        }
    }
    entries
}

/// Mirror placement selector.
pub struct MirrorPlacement;

impl MirrorPlacement {
    /// Select `copy_count` nodes across distinct racks. The order of the racks is
    /// up to chance; whether there is a plan is not. A plan that the loss of one
    /// rack would leave without a copy says so in its `safe_mode`.
    pub fn select(
        snap: &TopologySnapshot,
        copy_count: usize,
        constraints: &PlacementConstraints,
    ) -> (r: Result<PlacementPlan, PlacementError>)
        requires
            copies_countable(admitted_places(snap.healthy(), constraints@), copy_count),
        ensures
            is_mirror_selection(
                admitted_places(snap.healthy(), constraints@),
                copy_count,
                constraints@,
                selection_model(r),
            ),
            ({
                let places = admitted_places(snap.healthy(), constraints@);
                match r {
                    Ok(plan) => mirror_refusal(places, copy_count) is None && plan@.entries.len()
                        == copy_count && spread_over(places, plan@.entries, 1),
                    Err(error) => mirror_refusal(places, copy_count) == Some(error@),
                }
            }),
    {
        let ghost places = admitted_places(snap.healthy(), constraints@);
        let ghost ascending_racks = racks_of(places);
        if copy_count == 0 {
            assert(mirror_selection(places, ascending_racks, copy_count, constraints@) is Err);
            return Err(PlacementError::InvalidShape(text("mirror copy_count must be non-zero")));
        }
        let dgs = healthy_dgs(snap, constraints);
        proof {
            lemma_nodes_of(places);
        }
        if dgs.len() == 0 {
            assert(mirror_selection(places, ascending_racks, copy_count, constraints@) is Err);
            return Err(PlacementError::NoHealthyDiskGroups);
        }
        let mut racks = collect_racks(&dgs);
        shuffle_ids(&mut racks);
        proof {
            law_mirror_copies(places, racks@, copy_count as nat);
            law_mirror_refusal(places, racks@, copy_count, constraints@);
        }
        let entries = select_in_order(&dgs, &racks, copy_count);
        let ghost outcome = mirror_selection(places, racks@, copy_count, constraints@);
        if entries.len() < copy_count {
            return Err(
                PlacementError::InsufficientNodes { needed: copy_count, available: entries.len() },
            );
        }
        proof {
            crate::selector::ec::lemma_single_blocks(places, entries@, 1);
            lemma_countable(entries@);
        }
        Ok(assess_plan(entries, usize_to_u32(copy_count - 1), constraints))
    }
}

} // verus!
