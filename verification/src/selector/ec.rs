//! Erasure-coded placement: distribute data and parity blocks across racks.
//!
//! Safe mode puts at most as many blocks on a node as there are parity blocks,
//! so that the loss of a node stays recoverable. Unsafe mode relaxes that limit
//! for clusters that are too small.
use vstd::prelude::*;
use crate::arith::{clip_u32, usize_to_u32};
use crate::selector::balance::{
    even_share, law_node_first_is_even, law_rack_first_is_even, nodes_have_one_rack,
};
use crate::selector::{
    admitted_places, block_total, collect_nodes, collect_racks, count_node_blocks,
    count_rack_blocks, finish_plan, finished_plan, healthy_dgs, lemma_blocks_bounded,
    lemma_countable, lemma_nodes_of, lemma_racks_of, node_blocks, nodes_of, one_block,
    peak_rack_blocks, rack_blocks, racks_of, selection_model, ConstraintsModel,
    FailureDomainPriority, PlacementConstraints, PlacementEntry, PlacementError,
    PlacementErrorModel, PlacementPlan, PlanModel,
};
use crate::text::text;
use crate::topology::{DiskLocation, TopologySnapshot};

verus! {

/// The place stands on the rack, where one is asked for, and its node has room.
pub open spec fn has_room(
    place: DiskLocation,
    entries: Seq<PlacementEntry>,
    max_per_node: nat,
    rack: Option<u64>,
) -> bool {
    &&& rack matches Some(rack_id) ==> place.rack_id == rack_id
    &&& node_blocks(entries, place.node_id) < max_per_node
}

/// `a` is preferred to `b`: its node holds fewer blocks; where nodes come
/// first, its rack holds fewer blocks; then the smaller node, then the smaller
/// disk-group.
pub open spec fn preferred(
    entries: Seq<PlacementEntry>,
    priority: FailureDomainPriority,
    a: DiskLocation,
    b: DiskLocation,
) -> bool {
    let (node_a, node_b) = (node_blocks(entries, a.node_id), node_blocks(entries, b.node_id));
    let (rack_a, rack_b) = (rack_blocks(entries, a.rack_id), rack_blocks(entries, b.rack_id));
    if node_a != node_b {
        node_a < node_b
    } else if priority == FailureDomainPriority::NodeFirst && rack_a != rack_b {
        rack_a < rack_b
    } else if a.node_id != b.node_id {
        a.node_id < b.node_id
    } else {
        a.disk_group_id < b.disk_group_id
    }
}

/// The most preferred of the first `n` places with room.
pub open spec fn best_place(
    places: Seq<DiskLocation>,
    entries: Seq<PlacementEntry>,
    max_per_node: nat,
    rack: Option<u64>,
    priority: FailureDomainPriority,
    n: nat,
) -> Option<int>
    decreases n,
{
    if n == 0 {
        None
    } else {
        let front = best_place(places, entries, max_per_node, rack, priority, (n - 1) as nat);
        if !has_room(places[n - 1], entries, max_per_node, rack) {
            front
        } else {
            match front {
                Some(k) => if preferred(entries, priority, places[n - 1], places[k]) {
                    Some(n - 1)
                } else {
                    Some(k)
                },
                None => Some(n - 1),
            }
        }
    }
}

/// The best place exists exactly where some place has room, and has room.
pub proof fn lemma_best_place(
    places: Seq<DiskLocation>,
    entries: Seq<PlacementEntry>,
    max_per_node: nat,
    rack: Option<u64>,
    priority: FailureDomainPriority,
    n: nat,
)
    requires
        n <= places.len(),
    ensures
        match best_place(places, entries, max_per_node, rack, priority, n) {
            Some(k) => 0 <= k < n && has_room(places[k], entries, max_per_node, rack) && forall|j: int|
                0 <= j < n && has_room(#[trigger] places[j], entries, max_per_node, rack)
                    ==> !preferred(entries, priority, places[j], places[k]),
            None => forall|j: int|
                0 <= j < n ==> !has_room(#[trigger] places[j], entries, max_per_node, rack),
        },
    decreases n,
{
    if n > 0 {
        lemma_best_place(places, entries, max_per_node, rack, priority, (n - 1) as nat);
    }
}

/// The first rack from `cursor` on, in turn, with a place that has room.
pub open spec fn open_rack(
    places: Seq<DiskLocation>,
    racks: Seq<u64>,
    entries: Seq<PlacementEntry>,
    max_per_node: nat,
    cursor: int,
    tries: nat,
) -> Option<int>
    decreases tries,
{
    if tries == 0 {
        None
    } else if best_place(
        places,
        entries,
        max_per_node,
        Some(racks[cursor]),
        FailureDomainPriority::RackFirst,
        places.len(),
    ) is Some {
        Some(cursor)
    } else {
        open_rack(
            places,
            racks,
            entries,
            max_per_node,
            (cursor + 1) % (racks.len() as int),
            (tries - 1) as nat,
        )
    }
}

/// The place of the next block and the rack that has the turn after it.
pub open spec fn next_place(
    places: Seq<DiskLocation>,
    racks: Seq<u64>,
    entries: Seq<PlacementEntry>,
    max_per_node: nat,
    priority: FailureDomainPriority,
    cursor: int,
) -> Option<(int, int)> {
    match priority {
        FailureDomainPriority::RackFirst => match open_rack(
            places,
            racks,
            entries,
            max_per_node,
            cursor,
            racks.len(),
        ) {
            Some(at) => Some(
                (
                    best_place(
                        places,
                        entries,
                        max_per_node,
                        Some(racks[at]),
                        priority,
                        places.len(),
                    )->0,
                    (at + 1) % (racks.len() as int),
                ),
            ),
            None => None,
        },
        FailureDomainPriority::NodeFirst => match best_place(
            places,
            entries,
            max_per_node,
            None,
            priority,
            places.len(),
        ) {
            Some(k) => Some((k, cursor)),
            None => None,
        },
    }
}

/// `entries` continued block by block to `total` blocks; none where some block
/// finds no room.
pub open spec fn distribution(
    places: Seq<DiskLocation>,
    racks: Seq<u64>,
    entries: Seq<PlacementEntry>,
    total: nat,
    max_per_node: nat,
    priority: FailureDomainPriority,
    cursor: int,
) -> Option<Seq<PlacementEntry>>
    decreases total - entries.len(),
{
    if entries.len() >= total {
        Some(entries)
    } else {
        match next_place(places, racks, entries, max_per_node, priority, cursor) {
            Some((k, next_cursor)) => distribution(
                places,
                racks,
                entries.push(one_block(places[k])),
                total,
                max_per_node,
                priority,
                next_cursor,
            ),
            None => None,
        }
    }
}

/// The distribution of `total` blocks over the places, racks in ascending turn.
pub open spec fn distributed(
    places: Seq<DiskLocation>,
    total: nat,
    max_per_node: nat,
    priority: FailureDomainPriority,
) -> Option<Seq<PlacementEntry>> {
    distribution(places, racks_of(places), Seq::empty(), total, max_per_node, priority, 0)
}

/// The entry is a single block on one of the places.
pub open spec fn stands_on(places: Seq<DiskLocation>, entry: PlacementEntry) -> bool {
    exists|k: int| 0 <= k < places.len() && one_block(#[trigger] places[k]) == entry
}

/// All entries are single blocks on the places, no node above the limit.
pub open spec fn spread_over(
    places: Seq<DiskLocation>,
    entries: Seq<PlacementEntry>,
    max_per_node: nat,
) -> bool {
    &&& forall|i: int|
        0 <= i < entries.len() ==> stands_on(places, #[trigger] entries[i])
    &&& forall|node: u64| #[trigger] node_blocks(entries, node) <= max_per_node
}

/// Single blocks add up to their number.
pub proof fn lemma_single_blocks(places: Seq<DiskLocation>, entries: Seq<PlacementEntry>, max_per_node: nat)
    requires
        forall|i: int|
            0 <= i < entries.len() ==> stands_on(places, #[trigger] entries[i]),
    ensures
        block_total(entries) == entries.len(),
    decreases entries.len(),
{
    if entries.len() > 0 {
        let front = entries.drop_last();
        assert forall|i: int| 0 <= i < front.len() implies stands_on(places, #[trigger] front[i]) by {
            assert(front[i] == entries[i]);
        }
        lemma_single_blocks(places, front, max_per_node);
        let last = entries[entries.len() - 1];
        assert(stands_on(places, last));
    }
}

/// Blocks on a run of nodes together.
pub open spec fn blocks_on(entries: Seq<PlacementEntry>, nodes: Seq<u64>) -> int
    decreases nodes.len(),
{
    if nodes.len() == 0 {
        0
    } else {
        blocks_on(entries, nodes.drop_last()) + node_blocks(entries, nodes.last())
    }
}

proof fn lemma_blocks_on_push(entries: Seq<PlacementEntry>, entry: PlacementEntry, nodes: Seq<u64>)
    requires
        crate::selector::ascending(nodes),
    ensures
        blocks_on(entries.push(entry), nodes) == blocks_on(entries, nodes) + (if nodes.contains(
            entry.node_id,
        ) {
            entry.block_count as int
        } else {
            0
        }),
    decreases nodes.len(),
{
    assert(entries.push(entry).drop_last() =~= entries);
    if nodes.len() > 0 {
        let front = nodes.drop_last();
        lemma_blocks_on_push(entries, entry, front);
        if front.contains(entry.node_id) {
            let k = choose|k: int| 0 <= k < front.len() && front[k] == entry.node_id;
            assert(nodes[k] < nodes[nodes.len() - 1]);
            assert(nodes[k] == entry.node_id);
        }
        if nodes.contains(entry.node_id) {
            let k = choose|k: int| 0 <= k < nodes.len() && nodes[k] == entry.node_id;
            if k < front.len() {
                assert(front[k] == entry.node_id);
            }
        }
        assert(nodes.last() == nodes[nodes.len() - 1]);
    }
}

/// All blocks stand on the nodes of the places.
pub proof fn lemma_blocks_on_nodes(places: Seq<DiskLocation>, entries: Seq<PlacementEntry>, max: nat)
    requires
        spread_over(places, entries, max),
    ensures
        blocks_on(entries, nodes_of(places)) == entries.len(),
    decreases entries.len(),
{
    lemma_nodes_of(places);
    if entries.len() == 0 {
        lemma_blocks_on_nothing(entries, nodes_of(places));
    } else {
        let front = entries.drop_last();
        let last = entries.last();
        assert(spread_over(places, front, max)) by {
            assert forall|i: int| 0 <= i < front.len() implies stands_on(places, #[trigger] front[i]) by {
                assert(front[i] == entries[i]);
            }
            assert forall|node: u64| #[trigger] node_blocks(front, node) <= max by {
                assert(node_blocks(entries, node) <= max);
            }
        }
        lemma_blocks_on_nodes(places, front, max);
        assert(entries =~= front.push(last));
        lemma_blocks_on_push(front, last, nodes_of(places));
        assert(last == entries[entries.len() - 1]);
        assert(stands_on(places, entries[entries.len() - 1]));
        let k = choose|k: int| 0 <= k < places.len() && one_block(#[trigger] places[k]) == last;
        assert(places[k].node_id == last.node_id);
    }
}

proof fn lemma_blocks_on_nothing(entries: Seq<PlacementEntry>, nodes: Seq<u64>)
    requires
        entries.len() == 0,
    ensures
        blocks_on(entries, nodes) == 0,
    decreases nodes.len(),
{
    if nodes.len() > 0 {
        lemma_blocks_on_nothing(entries, nodes.drop_last());
    }
}

proof fn lemma_blocks_on_bound(entries: Seq<PlacementEntry>, nodes: Seq<u64>, max: nat, full: bool)
    requires
        forall|node: u64| #[trigger] node_blocks(entries, node) <= max,
        full ==> forall|i: int|
            0 <= i < nodes.len() ==> node_blocks(entries, #[trigger] nodes[i]) == max,
    ensures
        blocks_on(entries, nodes) <= max * nodes.len(),
        full ==> blocks_on(entries, nodes) == max * nodes.len(),
    decreases nodes.len(),
{
    if nodes.len() > 0 {
        let front = nodes.drop_last();
        assert forall|i: int| full && 0 <= i < front.len() implies node_blocks(
            entries,
            #[trigger] front[i],
        ) == max by {
            assert(front[i] == nodes[i]);
        }
        lemma_blocks_on_bound(entries, front, max, full);
        assert(max * nodes.len() == max * front.len() + max) by (nonlinear_arith)
            requires
                nodes.len() == front.len() + 1,
        ;
        assert(nodes.last() == nodes[nodes.len() - 1]);
    }
}

/// Entries within a limit per node are no more than the limit times the nodes.
pub proof fn lemma_node_count_bound(
    places: Seq<DiskLocation>,
    entries: Seq<PlacementEntry>,
    max_per_node: nat,
)
    requires
        spread_over(places, entries, max_per_node),
    ensures
        entries.len() <= max_per_node * nodes_of(places).len(),
{
    lemma_blocks_on_nodes(places, entries, max_per_node);
    lemma_blocks_on_bound(entries, nodes_of(places), max_per_node, false);
}

/// Where every node is at its limit, the entries are the limit times the nodes.
pub proof fn lemma_full_nodes(
    places: Seq<DiskLocation>,
    entries: Seq<PlacementEntry>,
    max_per_node: nat,
)
    requires
        spread_over(places, entries, max_per_node),
        forall|i: int|
            0 <= i < nodes_of(places).len() ==> node_blocks(
                entries,
                #[trigger] nodes_of(places)[i],
            ) == max_per_node,
    ensures
        entries.len() == max_per_node * nodes_of(places).len(),
{
    lemma_blocks_on_nodes(places, entries, max_per_node);
    lemma_blocks_on_bound(entries, nodes_of(places), max_per_node, true);
}

proof fn lemma_open_rack(
    places: Seq<DiskLocation>,
    racks: Seq<u64>,
    entries: Seq<PlacementEntry>,
    max_per_node: nat,
    cursor: int,
    tries: nat,
    target: int,
)
    requires
        racks.len() > 0,
        0 <= cursor < racks.len(),
        tries <= racks.len(),
        0 <= target < racks.len(),
        best_place(
            places,
            entries,
            max_per_node,
            Some(racks[target]),
            FailureDomainPriority::RackFirst,
            places.len(),
        ) is Some,
        (target >= cursor && target < cursor + tries) || (target < cursor && target + racks.len()
            < cursor + tries),
    ensures
        open_rack(places, racks, entries, max_per_node, cursor, tries) is Some,
    decreases tries,
{
    if tries > 0 {
        if best_place(
            places,
            entries,
            max_per_node,
            Some(racks[cursor]),
            FailureDomainPriority::RackFirst,
            places.len(),
        ) is None {
            assert(target != cursor);
            let next = (cursor + 1) % (racks.len() as int);
            if cursor + 1 < racks.len() {
                assert(next == cursor + 1) by (nonlinear_arith)
                    requires
                        next == (cursor + 1) % (racks.len() as int),
                        0 <= cursor + 1 < racks.len(),
                ;
            } else {
                assert(next == 0) by (nonlinear_arith)
                    requires
                        next == (cursor + 1) % (racks.len() as int),
                        cursor + 1 == racks.len(),
                        racks.len() > 0,
                ;
            }
            lemma_open_rack(
                places,
                racks,
                entries,
                max_per_node,
                next,
                (tries - 1) as nat,
                target,
            );
        }
    }
}

proof fn lemma_open_rack_found(
    places: Seq<DiskLocation>,
    racks: Seq<u64>,
    entries: Seq<PlacementEntry>,
    max_per_node: nat,
    cursor: int,
    tries: nat,
)
    requires
        0 <= cursor < racks.len(),
    ensures
        open_rack(places, racks, entries, max_per_node, cursor, tries) matches Some(at) ==> 0 <= at
            < racks.len() && best_place(
            places,
            entries,
            max_per_node,
            Some(racks[at]),
            FailureDomainPriority::RackFirst,
            places.len(),
        ) is Some,
    decreases tries,
{
    if tries > 0 {
        let next = (cursor + 1) % (racks.len() as int);
        assert(0 <= next < racks.len()) by (nonlinear_arith)
            requires
                next == (cursor + 1) % (racks.len() as int),
                racks.len() > 0,
        ;
        lemma_open_rack_found(places, racks, entries, max_per_node, next, (tries - 1) as nat);
    }
}

/// The next block finds a place exactly where some node has room, and the place
/// has room.
proof fn lemma_next_place(
    places: Seq<DiskLocation>,
    entries: Seq<PlacementEntry>,
    max_per_node: nat,
    priority: FailureDomainPriority,
    cursor: int,
)
    requires
        places.len() > 0,
        0 <= cursor < racks_of(places).len(),
    ensures
        match next_place(places, racks_of(places), entries, max_per_node, priority, cursor) {
            Some((k, next)) => 0 <= k < places.len() && node_blocks(entries, places[k].node_id)
                < max_per_node && 0 <= next < racks_of(places).len(),
            None => forall|j: int|
                0 <= j < places.len() ==> node_blocks(entries, (#[trigger] places[j]).node_id)
                    >= max_per_node,
        },
{
    let racks = racks_of(places);
    lemma_racks_of(places);
    match priority {
        FailureDomainPriority::RackFirst => {
            lemma_open_rack_found(places, racks, entries, max_per_node, cursor, racks.len());
            match open_rack(places, racks, entries, max_per_node, cursor, racks.len()) {
                Some(at) => {
                    lemma_best_place(
                        places,
                        entries,
                        max_per_node,
                        Some(racks[at]),
                        priority,
                        places.len(),
                    );
                    let next = (at + 1) % (racks.len() as int);
                    assert(0 <= next < racks.len()) by (nonlinear_arith)
                        requires
                            next == (at + 1) % (racks.len() as int),
                            racks.len() > 0,
                    ;
                },
                None => {
                    assert forall|j: int| 0 <= j < places.len() implies node_blocks(
                        entries,
                        (#[trigger] places[j]).node_id,
                    ) >= max_per_node by {
                        if node_blocks(entries, places[j].node_id) < max_per_node {
                            let t = choose|t: int|
                                0 <= t < racks.len() && racks[t] == places[j].rack_id;
                            lemma_best_place(
                                places,
                                entries,
                                max_per_node,
                                Some(racks[t]),
                                FailureDomainPriority::RackFirst,
                                places.len(),
                            );
                            assert(has_room(places[j], entries, max_per_node, Some(racks[t])));
                            lemma_open_rack(
                                places,
                                racks,
                                entries,
                                max_per_node,
                                cursor,
                                racks.len(),
                                t,
                            );
                        }
                    }
                },
            }
        },
        FailureDomainPriority::NodeFirst => {
            lemma_best_place(places, entries, max_per_node, None, priority, places.len());
            if next_place(places, racks, entries, max_per_node, priority, cursor) is None {
                assert forall|j: int| 0 <= j < places.len() implies node_blocks(
                    entries,
                    (#[trigger] places[j]).node_id,
                ) >= max_per_node by {
                    assert(!has_room(places[j], entries, max_per_node, None));
                }
            }
        },
    }
}

proof fn lemma_distribution(
    places: Seq<DiskLocation>,
    entries: Seq<PlacementEntry>,
    total: nat,
    max_per_node: nat,
    priority: FailureDomainPriority,
    cursor: int,
)
    requires
        places.len() > 0,
        0 <= cursor < racks_of(places).len(),
        entries.len() <= total,
        spread_over(places, entries, max_per_node),
    ensures
        match distribution(
            places,
            racks_of(places),
            entries,
            total,
            max_per_node,
            priority,
            cursor,
        ) {
            Some(done) => done.len() == total && spread_over(places, done, max_per_node) && total
                <= max_per_node * nodes_of(places).len(),
            None => total > max_per_node * nodes_of(places).len(),
        },
    decreases total - entries.len(),
{
    let nodes = nodes_of(places);
    lemma_nodes_of(places);
    lemma_blocks_on_nodes(places, entries, max_per_node);
    if entries.len() == total {
        lemma_blocks_on_bound(entries, nodes, max_per_node, false);
    } else {
        lemma_next_place(places, entries, max_per_node, priority, cursor);
        match next_place(places, racks_of(places), entries, max_per_node, priority, cursor) {
            Some((k, next)) => {
                let added = one_block(places[k]);
                let longer = entries.push(added);
                assert(longer.drop_last() =~= entries);
                assert(spread_over(places, longer, max_per_node)) by {
                    assert forall|i: int| 0 <= i < longer.len() implies stands_on(places, #[trigger] longer[i]) by {
                        if i < entries.len() {
                            assert(longer[i] == entries[i]);
                        } else {
                            assert(one_block(places[k]) == longer[i]);
                        }
                    }
                    assert forall|node: u64| #[trigger]
                        node_blocks(longer, node) <= max_per_node by {
                        assert(node_blocks(entries, node) <= max_per_node);
                    }
                }
                lemma_distribution(places, longer, total, max_per_node, priority, next);
            },
            None => {
                assert forall|i: int| 0 <= i < nodes.len() implies node_blocks(
                    entries,
                    #[trigger] nodes[i],
                ) == max_per_node by {
                    assert(nodes.contains(nodes[i]));
                    let j = choose|j: int| 0 <= j < places.len() && (#[trigger] places[j]).node_id
                        == nodes[i];
                    assert(node_blocks(entries, places[j].node_id) >= max_per_node);
                    assert(node_blocks(entries, nodes[i]) <= max_per_node);
                }
                lemma_blocks_on_bound(entries, nodes, max_per_node, true);
            },
        }
    }
}

/// Blocks are distributed exactly where the nodes have room for all of them;
/// then every block stands on one of the places and no node exceeds the limit.
pub proof fn law_distribution(
    places: Seq<DiskLocation>,
    total: nat,
    max_per_node: nat,
    priority: FailureDomainPriority,
)
    requires
        places.len() > 0,
    ensures
        distributed(places, total, max_per_node, priority) is Some <==> total <= max_per_node
            * nodes_of(places).len(),
        distributed(places, total, max_per_node, priority) matches Some(entries) ==> entries.len()
            == total && spread_over(places, entries, max_per_node),
{
    lemma_racks_of(places);
    assert(spread_over(places, Seq::<PlacementEntry>::empty(), max_per_node));
    lemma_distribution(places, Seq::empty(), total, max_per_node, priority, 0);
}

/// What the priority promises of the blocks. Nodes first: no node holds more than
/// its even share, rounded up. Racks first, where every node stands on one rack:
/// no other way to place the blocks has a smaller largest rack.
pub open spec fn is_spread_for(
    places: Seq<DiskLocation>,
    entries: Seq<PlacementEntry>,
    max_per_node: nat,
    priority: FailureDomainPriority,
) -> bool {
    match priority {
        FailureDomainPriority::NodeFirst => forall|node: u64| #[trigger]
            node_blocks(entries, node) <= even_share(entries.len(), nodes_of(places).len()),
        FailureDomainPriority::RackFirst => nodes_have_one_rack(places) ==> forall|
            other: Seq<PlacementEntry>,
        |
            spread_over(places, other, max_per_node) && other.len() == entries.len()
                ==> peak_rack_blocks(entries, entries.len()) <= #[trigger] peak_rack_blocks(
                other,
                other.len(),
            ),
    }
}

proof fn lemma_spread_for(
    places: Seq<DiskLocation>,
    total: nat,
    max_per_node: nat,
    priority: FailureDomainPriority,
)
    requires
        places.len() > 0,
    ensures
        distributed(places, total, max_per_node, priority) matches Some(entries) ==> is_spread_for(
            places,
            entries,
            max_per_node,
            priority,
        ),
{
    law_distribution(places, total, max_per_node, priority);
    match distributed(places, total, max_per_node, priority) {
        Some(entries) => match priority {
            FailureDomainPriority::NodeFirst => {
                assert forall|node: u64| #[trigger] node_blocks(entries, node) <= even_share(
                    entries.len(),
                    nodes_of(places).len(),
                ) by {
                    law_node_first_is_even(places, total, max_per_node, node);
                }
            },
            FailureDomainPriority::RackFirst => {
                if nodes_have_one_rack(places) {
                    assert forall|other: Seq<PlacementEntry>|
                        spread_over(places, other, max_per_node) && other.len()
                            == entries.len() implies peak_rack_blocks(entries, entries.len())
                        <= #[trigger] peak_rack_blocks(other, other.len()) by {
                        law_rack_first_is_even(places, total, max_per_node, other);
                    }
                }
            },
        },
        None => {},
    }
}

fn find_best(
    places: &[DiskLocation],
    entries: &[PlacementEntry],
    max_per_node: usize,
    rack: Option<u64>,
    priority: FailureDomainPriority,
) -> (r: Option<usize>)
    requires
        block_total(entries@) <= u32::MAX,
    ensures
        match r {
            Some(k) => best_place(
                places@,
                entries@,
                max_per_node as nat,
                rack,
                priority,
                places@.len(),
            ) == Some(k as int) && k < places@.len(),
            None => best_place(
                places@,
                entries@,
                max_per_node as nat,
                rack,
                priority,
                places@.len(),
            ) is None,
        },
{
    let mut best: Option<usize> = None;
    let mut i: usize = 0;
    while i < places.len()
        invariant
            i <= places.len(),
            block_total(entries@) <= u32::MAX,
            match best {
                Some(k) => best_place(
                    places@,
                    entries@,
                    max_per_node as nat,
                    rack,
                    priority,
                    i as nat,
                ) == Some(k as int) && k < i,
                None => best_place(
                    places@,
                    entries@,
                    max_per_node as nat,
                    rack,
                    priority,
                    i as nat,
                ) is None,
            },
        decreases places.len() - i,
    {
        let place = places[i];
        let on_rack = match rack {
            Some(rack_id) => place.rack_id == rack_id,
            None => true,
        };
        if on_rack {
            proof {
                lemma_blocks_bounded(entries@, place.node_id);
                lemma_blocks_bounded(entries@, place.rack_id);
            }
            let load: u32 = count_node_blocks(entries, place.node_id);
            if (load as usize) < max_per_node {
                match best {
                    Some(k) => {
                        let other = places[k];
                        proof {
                            lemma_blocks_bounded(entries@, other.node_id);
                            lemma_blocks_bounded(entries@, other.rack_id);
                        }
                        let other_load: u32 = count_node_blocks(entries, other.node_id);
                        let rack_load: u32 = count_rack_blocks(entries, place.rack_id);
                        let other_rack_load: u32 = count_rack_blocks(entries, other.rack_id);
                        let better = if load != other_load {
                            load < other_load
                        } else if priority == FailureDomainPriority::NodeFirst && rack_load
                            != other_rack_load {
                            rack_load < other_rack_load
                        } else if place.node_id != other.node_id {
                            place.node_id < other.node_id
                        } else {
                            place.disk_group_id < other.disk_group_id
                        };
                        if better {
                            best = Some(i);
                        }
                    },
                    None => {
                        best = Some(i);
                    },
                }
            }
        }
        i = i + 1;
    }
    best
}

/// Distribute `total_blocks` across nodes, with at most `max_per_node` blocks
/// per node: across racks first in turn, then within each rack across nodes.
pub fn try_distribute(
    places: &[DiskLocation],
    total_blocks: usize,
    max_per_node: usize,
    priority: FailureDomainPriority,
) -> (r: Option<Vec<PlacementEntry>>)
    requires
        places@.len() > 0,
        total_blocks <= u32::MAX,
    ensures
        match r {
            Some(entries) => distributed(
                places@,
                total_blocks as nat,
                max_per_node as nat,
                priority,
            ) == Some(entries@),
            None => distributed(places@, total_blocks as nat, max_per_node as nat, priority) is None,
        },
        r is Some <==> total_blocks <= max_per_node * nodes_of(places@).len(),
        r matches Some(entries) ==> entries@.len() == total_blocks && spread_over(
            places@,
            entries@,
            max_per_node as nat,
        ) && is_spread_for(places@, entries@, max_per_node as nat, priority),
{
    let racks = collect_racks(places);
    proof {
        lemma_racks_of(places@);
        law_distribution(places@, total_blocks as nat, max_per_node as nat, priority);
        lemma_spread_for(places@, total_blocks as nat, max_per_node as nat, priority);
    }
    let mut entries: Vec<PlacementEntry> = Vec::new();
    let mut cursor: usize = 0;
    assert(spread_over(places@, entries@, max_per_node as nat));
    while entries.len() < total_blocks
        invariant
            places@.len() > 0,
            total_blocks <= u32::MAX,
            entries@.len() <= total_blocks,
            racks@ == racks_of(places@),
            cursor < racks@.len(),
            spread_over(places@, entries@, max_per_node as nat),
            distributed(places@, total_blocks as nat, max_per_node as nat, priority)
                == distribution(
                places@,
                racks@,
                entries@,
                total_blocks as nat,
                max_per_node as nat,
                priority,
                cursor as int,
            ),
        decreases total_blocks - entries.len(),
    {
        proof {
            lemma_single_blocks(places@, entries@, max_per_node as nat);
            lemma_next_place(places@, entries@, max_per_node as nat, priority, cursor as int);
        }
        let mut found: Option<usize> = None;
        let mut next: usize = cursor;
        match priority {
            FailureDomainPriority::RackFirst => {
                let mut tries: usize = racks.len();
                let mut at: usize = cursor;
                while tries > 0 && found.is_none()
                    invariant
                        tries <= racks.len(),
                        at < racks@.len(),
                        next < racks@.len(),
                        block_total(entries@) <= u32::MAX,
                        match found {
                            Some(k) => k < places@.len() && ({
                                let turn = open_rack(
                                    places@,
                                    racks@,
                                    entries@,
                                    max_per_node as nat,
                                    cursor as int,
                                    racks@.len(),
                                );
                                &&& turn is Some
                                &&& best_place(
                                    places@,
                                    entries@,
                                    max_per_node as nat,
                                    Some(racks@[turn->0]),
                                    FailureDomainPriority::RackFirst,
                                    places@.len(),
                                ) == Some(k as int)
                                &&& next == (turn->0 + 1) % (racks@.len() as int)
                            }),
                            None => open_rack(
                                places@,
                                racks@,
                                entries@,
                                max_per_node as nat,
                                cursor as int,
                                racks@.len(),
                            ) == open_rack(
                                places@,
                                racks@,
                                entries@,
                                max_per_node as nat,
                                at as int,
                                tries as nat,
                            ),
                        },
                    decreases tries,
                {
                    let best = find_best(
                        places,
                        &entries,
                        max_per_node,
                        Some(racks[at]),
                        FailureDomainPriority::RackFirst,
                    );
                    let after: usize = if at + 1 < racks.len() {
                        at + 1
                    } else {
                        0
                    };
                    proof {
                        let n = racks@.len() as int;
                        assert(after == (at + 1) % n) by (nonlinear_arith)
                            requires
                                0 <= at < n,
                                after == (if at + 1 < n {
                                    at + 1
                                } else {
                                    0
                                }),
                        ;
                    }
                    match best {
                        Some(k) => {
                            found = Some(k);
                            next = after;
                        },
                        None => {
                            at = after;
                        },
                    }
                    tries = tries - 1;
                }
            },
            FailureDomainPriority::NodeFirst => {
                found = find_best(places, &entries, max_per_node, None, priority);
            },
        }
        match found {
            Some(k) => {
                let place = places[k];
                let entry = PlacementEntry {
                    rack_id: place.rack_id,
                    node_id: place.node_id,
                    disk_group_id: place.disk_group_id,
                    block_count: 1,
                };
                proof {
                    let longer = entries@.push(entry);
                    assert(longer.drop_last() =~= entries@);
                    assert(spread_over(places@, longer, max_per_node as nat)) by {
                        assert forall|i: int| 0 <= i < longer.len() implies stands_on(places@, #[trigger] longer[i]) by {
                            if i < entries@.len() {
                                assert(longer[i] == entries@[i]);
                            } else {
                                assert(one_block(places@[k as int]) == longer[i]);
                            }
                        }
                        assert forall|node: u64| #[trigger]
                            node_blocks(longer, node) <= max_per_node by {
                            assert(node_blocks(entries@, node) <= max_per_node);
                        }
                    }
                }
                entries.push(entry);
                cursor = next;
            },
            None => {
                proof {
                    law_distribution(places@, total_blocks as nat, max_per_node as nat, priority);
                }
                return None;
            },
        }
    }
    Some(entries)
}

/// EC placement selector.
pub struct EcPlacement;

/// The plan of an erasure-coded strip, or why there is none.
pub open spec fn ec_selection(
    places: Seq<DiskLocation>,
    data_num: usize,
    code_num: usize,
    constraints: ConstraintsModel,
) -> Result<PlanModel, PlacementErrorModel> {
    let total = (data_num + code_num) as nat;
    let budget = clip_u32(code_num as int);
    if data_num == 0 || code_num == 0 {
        Err(PlacementErrorModel::InvalidShape("EC data_num and code_num must both be non-zero"@))
    } else if places.len() == 0 {
        Err(PlacementErrorModel::NoHealthyDiskGroups)
    } else {
        match distributed(places, total, code_num as nat, constraints.failure_domain_priority) {
            Some(entries) => finished_plan(entries, budget, constraints, true),
            None => if !constraints.allow_unsafe_ec {
                Err(PlacementErrorModel::UnsafePlacementRequired)
            } else {
                match distributed(places, total, total, constraints.failure_domain_priority) {
                    Some(entries) => finished_plan(entries, budget, constraints, true),
                    None => Err(
                        PlacementErrorModel::InsufficientNodes {
                            needed: total as usize,
                            available: nodes_of(places).len() as usize,
                        },
                    ),
                }
            },
        }
    }
}

impl EcPlacement {
    /// Select placement for `data_num + code_num` blocks.
    pub fn select(
        snap: &TopologySnapshot,
        data_num: usize,
        code_num: usize,
        constraints: &PlacementConstraints,
    ) -> (r: Result<PlacementPlan, PlacementError>)
        requires
            data_num + code_num <= u32::MAX,
        ensures
            selection_model(r) == ec_selection(
                admitted_places(snap.healthy(), constraints@),
                data_num,
                code_num,
                constraints@,
            ),
    {
        if data_num == 0 || code_num == 0 {
            return Err(
                PlacementError::InvalidShape(text("EC data_num and code_num must both be non-zero")),
            );
        }
        let total_blocks: usize = data_num + code_num;
        let places = healthy_dgs(snap, constraints);
        if places.len() == 0 {
            return Err(PlacementError::NoHealthyDiskGroups);
        }
        let priority = constraints.failure_domain_priority;
        proof {
            law_distribution(places@, total_blocks as nat, code_num as nat, priority);
            law_distribution(places@, total_blocks as nat, total_blocks as nat, priority);
            lemma_nodes_of(places@);
        }
        match try_distribute(&places, total_blocks, code_num, priority) {
            Some(entries) => {
                proof {
                    lemma_single_blocks(places@, entries@, code_num as nat);
                    lemma_countable(entries@);
                }
                return finish_plan(entries, usize_to_u32(code_num), constraints, true);
            },
            None => {},
        }
        if !constraints.allow_unsafe_ec {
            return Err(PlacementError::UnsafePlacementRequired);
        }
        match try_distribute(&places, total_blocks, total_blocks, priority) {
            Some(entries) => {
                proof {
                    lemma_single_blocks(places@, entries@, total_blocks as nat);
                    lemma_countable(entries@);
                }
                return finish_plan(entries, usize_to_u32(code_num), constraints, true);
            },
            None => {},
        }
        Err(
            PlacementError::InsufficientNodes {
                needed: total_blocks,
                available: collect_nodes(&places).len(),
            },
        )
    }
}

/// A plan has one entry for each block.
pub proof fn lemma_ec_selection_len(
    places: Seq<DiskLocation>,
    data_num: usize,
    code_num: usize,
    constraints: ConstraintsModel,
)
    requires
        data_num + code_num <= u32::MAX,
    ensures
        ec_selection(places, data_num, code_num, constraints) matches Ok(plan)
            ==> plan.entries.len() == data_num + code_num,
{
    if places.len() > 0 && data_num > 0 && code_num > 0 {
        let total = (data_num + code_num) as nat;
        law_distribution(places, total, code_num as nat, constraints.failure_domain_priority);
        law_distribution(places, total, total, constraints.failure_domain_priority);
    }
}

/// A safe plan puts at most `code_num` blocks on any node, so that losing a node
/// leaves enough blocks to recover.
pub proof fn law_safe_ec_plan(
    places: Seq<DiskLocation>,
    data_num: usize,
    code_num: usize,
    constraints: ConstraintsModel,
    node: u64,
)
    requires
        0 < code_num,
        0 < data_num,
        data_num + code_num <= u32::MAX,
        !constraints.allow_unsafe_ec,
        ec_selection(places, data_num, code_num, constraints) is Ok,
    ensures
        ({
            let plan = ec_selection(places, data_num, code_num, constraints)->Ok_0;
            &&& plan.entries.len() == data_num + code_num
            &&& node_blocks(plan.entries, node) <= code_num
        }),
{
    let total = (data_num + code_num) as nat;
    law_distribution(places, total, code_num as nat, constraints.failure_domain_priority);
    let entries = distributed(places, total, code_num as nat, constraints.failure_domain_priority)->0;
    assert(node_blocks(entries, node) <= code_num);
}

/// Where unsafe placement is allowed and any disk-group is admitted, nodes never
/// run out.
pub proof fn law_unsafe_ec_never_lacks_nodes(
    places: Seq<DiskLocation>,
    data_num: usize,
    code_num: usize,
    constraints: ConstraintsModel,
)
    requires
        0 < code_num,
        0 < data_num,
        constraints.allow_unsafe_ec,
        places.len() > 0,
    ensures
        !(ec_selection(places, data_num, code_num, constraints) matches Err(
            PlacementErrorModel::InsufficientNodes { .. },
        )),
{
    let total = (data_num + code_num) as nat;
    lemma_nodes_of(places);
    law_distribution(places, total, total, constraints.failure_domain_priority);
    let nodes = nodes_of(places).len();
    assert(total <= total * nodes) by (nonlinear_arith)
        requires
            nodes >= 1,
            total >= 0,
    ;
}

} // verus!
