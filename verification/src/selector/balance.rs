//! How evenly erasure-coded blocks are spread.
//!
//! Where racks come first, no other way to place the blocks has a smaller largest
//! rack. Where nodes come first, no node holds more than its even share, rounded
//! up.
use vstd::prelude::*;
use crate::selector::ec::{
    best_place, blocks_on, distribution, has_room, lemma_best_place, lemma_blocks_on_nodes,
    lemma_full_nodes, lemma_node_count_bound, open_rack, spread_over, stands_on,
};
use crate::selector::{
    ascending, lemma_nodes_of, lemma_racks_of, node_blocks, nodes_of, one_block, peak_rack_blocks,
    rack_blocks, racks_of, FailureDomainPriority, PlacementEntry,
};
use crate::topology::DiskLocation;

verus! {

/// Every node stands on one rack.
pub open spec fn nodes_have_one_rack(places: Seq<DiskLocation>) -> bool {
    forall|i: int, j: int|
        0 <= i < places.len() && 0 <= j < places.len() && (#[trigger] places[i]).node_id == (
        #[trigger] places[j]).node_id ==> places[i].rack_id == places[j].rack_id
}

/// The places on one rack.
pub open spec fn on_rack(places: Seq<DiskLocation>, rack_id: u64) -> Seq<DiskLocation>
    decreases places.len(),
{
    if places.len() == 0 {
        Seq::empty()
    } else {
        let front = on_rack(places.drop_last(), rack_id);
        if places.last().rack_id == rack_id {
            front.push(places.last())
        } else {
            front
        }
    }
}

/// The places on a rack are exactly those of its ID.
pub proof fn lemma_on_rack(places: Seq<DiskLocation>, rack_id: u64)
    ensures
        forall|i: int|
            0 <= i < on_rack(places, rack_id).len() ==> (#[trigger] on_rack(
                places,
                rack_id,
            )[i]).rack_id == rack_id && places.contains(on_rack(places, rack_id)[i]),
        forall|k: int|
            0 <= k < places.len() && places[k].rack_id == rack_id ==> on_rack(
                places,
                rack_id,
            ).contains(#[trigger] places[k]),
    decreases places.len(),
{
    if places.len() > 0 {
        let front = places.drop_last();
        lemma_on_rack(front, rack_id);
        let inner = on_rack(front, rack_id);
        let outer = on_rack(places, rack_id);
        assert forall|i: int| 0 <= i < outer.len() implies (#[trigger] outer[i]).rack_id == rack_id
            && places.contains(outer[i]) by {
            if i < inner.len() {
                assert(outer[i] == inner[i]);
                assert(front.contains(inner[i]));
                let m = choose|m: int| 0 <= m < front.len() && front[m] == inner[i];
                assert(places[m] == outer[i]);
            } else {
                assert(places[places.len() - 1] == outer[i]);
            }
        }
        assert forall|k: int| 0 <= k < places.len() && places[k].rack_id == rack_id implies outer.contains(
            #[trigger] places[k],
        ) by {
            if k < front.len() {
                assert(front[k] == places[k]);
                assert(inner.contains(front[k]));
                let m = choose|m: int| 0 <= m < inner.len() && inner[m] == front[k];
                assert(outer[m] == places[k]);
            } else {
                assert(outer[inner.len() as int] == places[k]);
            }
        }
    }
}

/// The entries on one rack.
pub open spec fn rack_entries(entries: Seq<PlacementEntry>, rack_id: u64) -> Seq<PlacementEntry>
    decreases entries.len(),
{
    if entries.len() == 0 {
        Seq::empty()
    } else {
        let front = rack_entries(entries.drop_last(), rack_id);
        if entries.last().rack_id == rack_id {
            front.push(entries.last())
        } else {
            front
        }
    }
}

/// The entries on a rack are spread over its places as all are over all.
pub proof fn lemma_rack_entries(
    places: Seq<DiskLocation>,
    entries: Seq<PlacementEntry>,
    rack_id: u64,
    max_per_node: nat,
)
    requires
        spread_over(places, entries, max_per_node),
        nodes_have_one_rack(places),
    ensures
        spread_over(on_rack(places, rack_id), rack_entries(entries, rack_id), max_per_node),
        forall|k: int|
            0 <= k < places.len() && (#[trigger] places[k]).rack_id == rack_id ==> node_blocks(
                rack_entries(entries, rack_id),
                places[k].node_id,
            ) == node_blocks(entries, places[k].node_id),
        rack_entries(entries, rack_id).len() == rack_blocks(entries, rack_id),
    decreases entries.len(),
{
    let own = rack_entries(entries, rack_id);
    let rows = on_rack(places, rack_id);
    if entries.len() > 0 {
        let front = entries.drop_last();
        let last = entries[entries.len() - 1];
        assert(last == entries.last());
        assert(stands_on(places, last));
        let m = choose|m: int| 0 <= m < places.len() && one_block(#[trigger] places[m]) == last;
        assert(spread_over(places, front, max_per_node)) by {
            assert forall|i: int| 0 <= i < front.len() implies stands_on(places, #[trigger] front[i]) by {
                assert(front[i] == entries[i]);
            }
            assert forall|node: u64| #[trigger] node_blocks(front, node) <= max_per_node by {
                assert(node_blocks(entries, node) <= max_per_node);
            }
        }
        lemma_rack_entries(places, front, rack_id, max_per_node);
        let inner = rack_entries(front, rack_id);
        if last.rack_id == rack_id {
            assert(own.drop_last() =~= inner);
            lemma_on_rack(places, rack_id);
            assert(rows.contains(places[m]));
            let r = choose|r: int| 0 <= r < rows.len() && rows[r] == places[m];
            assert(one_block(rows[r]) == last);
            assert(stands_on(rows, last));
            assert forall|i: int| 0 <= i < own.len() implies stands_on(rows, #[trigger] own[i]) by {
                if i < inner.len() {
                    assert(own[i] == inner[i]);
                }
            }
            assert forall|node: u64| #[trigger] node_blocks(own, node) <= max_per_node by {
                assert(node_blocks(inner, node) <= max_per_node);
                if node == last.node_id {
                    assert(node_blocks(inner, places[m].node_id) == node_blocks(
                        front,
                        places[m].node_id,
                    ));
                    assert(node_blocks(entries, node) <= max_per_node);
                }
            }
        } else {
            assert forall|k: int|
                0 <= k < places.len() && (#[trigger] places[k]).rack_id == rack_id implies node_blocks(
                own,
                places[k].node_id,
            ) == node_blocks(entries, places[k].node_id) by {
                if last.node_id == places[k].node_id {
                    assert(places[m].node_id == places[k].node_id);
                }
            }
        }
    }
}

// ---------------------------------------------------------------------------
// Nodes first.
// ---------------------------------------------------------------------------

/// No node holds two blocks more than another.
pub open spec fn nodes_even(places: Seq<DiskLocation>, entries: Seq<PlacementEntry>) -> bool {
    forall|i: int, j: int|
        0 <= i < places.len() && 0 <= j < places.len() ==> node_blocks(
            entries,
            (#[trigger] places[i]).node_id,
        ) <= node_blocks(entries, (#[trigger] places[j]).node_id) + 1
}

proof fn lemma_nodes_even(
    places: Seq<DiskLocation>,
    racks: Seq<u64>,
    entries: Seq<PlacementEntry>,
    total: nat,
    max_per_node: nat,
    cursor: int,
)
    requires
        nodes_even(places, entries),
    ensures
        distribution(
            places,
            racks,
            entries,
            total,
            max_per_node,
            FailureDomainPriority::NodeFirst,
            cursor,
        ) matches Some(done) ==> nodes_even(places, done),
    decreases total - entries.len(),
{
    if entries.len() < total {
        let priority = FailureDomainPriority::NodeFirst;
        lemma_best_place(places, entries, max_per_node, None, priority, places.len());
        match best_place(places, entries, max_per_node, None, priority, places.len()) {
            Some(k) => {
                let longer = entries.push(one_block(places[k]));
                assert(longer.drop_last() =~= entries);
                assert forall|i: int, j: int|
                    0 <= i < places.len() && 0 <= j < places.len() implies node_blocks(
                    longer,
                    (#[trigger] places[i]).node_id,
                ) <= node_blocks(longer, (#[trigger] places[j]).node_id) + 1 by {
                    assert(node_blocks(entries, places[i].node_id) <= node_blocks(
                        entries,
                        places[j].node_id,
                    ) + 1);
                    assert(has_room(places[j], entries, max_per_node, None) || node_blocks(
                        entries,
                        places[j].node_id,
                    ) >= max_per_node);
                    assert(node_blocks(entries, places[k].node_id) <= node_blocks(
                        entries,
                        places[j].node_id,
                    ));
                }
                lemma_nodes_even(places, racks, longer, total, max_per_node, cursor);
            },
            None => {},
        }
    }
}

proof fn lemma_even_sum(entries: Seq<PlacementEntry>, nodes: Seq<u64>, least: int, at: int)
    requires
        ascending(nodes),
        forall|i: int| 0 <= i < nodes.len() ==> node_blocks(entries, #[trigger] nodes[i]) >= least,
        0 <= at < nodes.len() ==> node_blocks(entries, nodes[at]) > least,
    ensures
        blocks_on(entries, nodes) >= least * nodes.len() + (if 0 <= at < nodes.len() {
            1int
        } else {
            0
        }),
    decreases nodes.len(),
{
    if nodes.len() > 0 {
        let front = nodes.drop_last();
        assert(nodes.last() == nodes[nodes.len() - 1]);
        assert forall|i: int| 0 <= i < front.len() implies node_blocks(entries, #[trigger] front[i])
            >= least by {
            assert(front[i] == nodes[i]);
        }
        lemma_even_sum(entries, front, least, at);
        assert(least * nodes.len() == least * front.len() + least) by (nonlinear_arith)
            requires
                nodes.len() == front.len() + 1,
        ;
    }
}

/// The most blocks that any node has to hold: the even share, rounded up.
pub open spec fn even_share(total: nat, nodes: nat) -> int {
    (total + nodes - 1) / nodes as int
}

proof fn lemma_share(total: nat, nodes: nat, peak: int)
    requires
        nodes > 0,
        total >= (peak - 1) * nodes + 1,
    ensures
        peak <= even_share(total, nodes),
{
    assert(peak <= (total + nodes - 1) / nodes as int) by (nonlinear_arith)
        requires
            nodes > 0,
            total >= (peak - 1) * nodes + 1,
    ;
}

/// Where nodes come first, no node holds more blocks than its even share, rounded
/// up.
pub proof fn law_node_first_is_even(
    places: Seq<DiskLocation>,
    total: nat,
    max_per_node: nat,
    node_id: u64,
)
    requires
        places.len() > 0,
    ensures
        crate::selector::ec::distributed(
            places,
            total,
            max_per_node,
            FailureDomainPriority::NodeFirst,
        ) matches Some(entries) ==> node_blocks(entries, node_id) <= even_share(
            total,
            nodes_of(places).len(),
        ),
{
    let priority = FailureDomainPriority::NodeFirst;
    crate::selector::ec::law_distribution(places, total, max_per_node, priority);
    lemma_nodes_of(places);
    let nodes = nodes_of(places);
    let none = Seq::<PlacementEntry>::empty();
    assert(nodes_even(places, none));
    lemma_nodes_even(places, racks_of(places), none, total, max_per_node, 0);
    match crate::selector::ec::distributed(places, total, max_per_node, priority) {
        Some(entries) => {
            let peak = node_blocks(entries, node_id);
            assert(0 <= even_share(total, nodes.len())) by (nonlinear_arith)
                requires
                    nodes.len() > 0,
                    even_share(total, nodes.len()) == (total + nodes.len() - 1) / nodes.len() as int,
            ;
            if peak > 0 {
                crate::selector::mirror::lemma_occupied(entries, node_id);
                let i = choose|i: int|
                    0 <= i < entries.len() && (#[trigger] entries[i]).node_id == node_id;
                assert(stands_on(places, entries[i]));
                let k = choose|k: int| 0 <= k < places.len() && one_block(#[trigger] places[k])
                    == entries[i];
                assert(nodes.contains(places[k].node_id));
                let at = choose|at: int| 0 <= at < nodes.len() && nodes[at] == node_id;
                assert forall|t: int| 0 <= t < nodes.len() implies node_blocks(
                    entries,
                    #[trigger] nodes[t],
                ) >= peak - 1 by {
                    assert(nodes.contains(nodes[t]));
                    let j = choose|j: int| 0 <= j < places.len() && (#[trigger] places[j]).node_id
                        == nodes[t];
                    assert(node_blocks(entries, places[k].node_id) <= node_blocks(
                        entries,
                        places[j].node_id,
                    ) + 1);
                }
                lemma_even_sum(entries, nodes, peak - 1, at);
                lemma_blocks_on_nodes(places, entries, max_per_node);
                lemma_share(total, nodes.len(), peak);
            }
        },
        None => {},
    }
}

// ---------------------------------------------------------------------------
// Racks first.
// ---------------------------------------------------------------------------

/// Some node on the rack has room.
pub open spec fn rack_open(
    places: Seq<DiskLocation>,
    entries: Seq<PlacementEntry>,
    max_per_node: nat,
    rack_id: u64,
) -> bool {
    exists|j: int|
        0 <= j < places.len() && has_room(
            #[trigger] places[j],
            entries,
            max_per_node,
            Some(rack_id),
        )
}

proof fn lemma_rack_open(
    places: Seq<DiskLocation>,
    entries: Seq<PlacementEntry>,
    max_per_node: nat,
    rack_id: u64,
)
    ensures
        rack_open(places, entries, max_per_node, rack_id) <==> best_place(
            places,
            entries,
            max_per_node,
            Some(rack_id),
            FailureDomainPriority::RackFirst,
            places.len(),
        ) is Some,
{
    lemma_best_place(
        places,
        entries,
        max_per_node,
        Some(rack_id),
        FailureDomainPriority::RackFirst,
        places.len(),
    );
}

/// Blocks on the rack that has the turn at `t`, while `level` rounds are full
/// and the racks before `cursor` had their turn in the next one.
spec fn turn_level(t: int, cursor: int, level: int) -> int {
    if t < cursor {
        level + 1
    } else {
        level
    }
}

/// Every rack with room has had all its turns, and none has had more.
spec fn racks_level(
    places: Seq<DiskLocation>,
    racks: Seq<u64>,
    entries: Seq<PlacementEntry>,
    max_per_node: nat,
    cursor: int,
    level: int,
) -> bool {
    forall|t: int|
        0 <= t < racks.len() ==> rack_blocks(entries, #[trigger] racks[t]) <= turn_level(
            t,
            cursor,
            level,
        ) && (rack_open(places, entries, max_per_node, racks[t]) ==> rack_blocks(entries, racks[t])
            == turn_level(t, cursor, level))
}

proof fn lemma_first_open_rack(
    places: Seq<DiskLocation>,
    racks: Seq<u64>,
    entries: Seq<PlacementEntry>,
    max_per_node: nat,
    cursor: int,
    tries: nat,
)
    requires
        0 <= cursor < racks.len(),
        tries <= racks.len(),
    ensures
        open_rack(places, racks, entries, max_per_node, cursor, tries) matches Some(at) ==> {
            &&& 0 <= at < racks.len()
            &&& rack_open(places, entries, max_per_node, racks[at])
            &&& at >= cursor ==> at < cursor + tries && forall|t: int|
                cursor <= t < at ==> !rack_open(places, entries, max_per_node, #[trigger] racks[t])
            &&& at < cursor ==> at + racks.len() < cursor + tries && forall|t: int|
                (cursor <= t < racks.len() || 0 <= t < at) ==> !rack_open(
                    places,
                    entries,
                    max_per_node,
                    #[trigger] racks[t],
                )
        },
    decreases tries,
{
    if tries > 0 {
        lemma_rack_open(places, entries, max_per_node, racks[cursor]);
        if best_place(
            places,
            entries,
            max_per_node,
            Some(racks[cursor]),
            FailureDomainPriority::RackFirst,
            places.len(),
        ) is None {
            let next = (cursor + 1) % (racks.len() as int);
            lemma_turn(cursor, racks.len() as int);
            lemma_first_open_rack(places, racks, entries, max_per_node, next, (tries - 1) as nat);
        }
    }
}

proof fn lemma_turn(cursor: int, n: int)
    requires
        0 <= cursor < n,
    ensures
        (cursor + 1) % n == (if cursor + 1 < n {
            cursor + 1
        } else {
            0
        }),
{
    assert((cursor + 1) % n == (if cursor + 1 < n {
        cursor + 1
    } else {
        0
    })) by (nonlinear_arith)
        requires
            0 <= cursor < n,
    ;
}

proof fn lemma_racks_level_step(
    places: Seq<DiskLocation>,
    racks: Seq<u64>,
    entries: Seq<PlacementEntry>,
    max_per_node: nat,
    cursor: int,
    level: int,
    at: int,
    k: int,
) -> (next_level: int)
    requires
        racks.no_duplicates(),
        nodes_have_one_rack(places),
        0 <= cursor < racks.len(),
        racks_level(places, racks, entries, max_per_node, cursor, level),
        open_rack(places, racks, entries, max_per_node, cursor, racks.len()) == Some(at),
        0 <= k < places.len(),
        places[k].rack_id == racks[at],
    ensures
        racks_level(
            places,
            racks,
            entries.push(one_block(places[k])),
            max_per_node,
            (at + 1) % (racks.len() as int),
            next_level,
        ),
        0 <= (at + 1) % (racks.len() as int) < racks.len(),
{
    lemma_first_open_rack(places, racks, entries, max_per_node, cursor, racks.len());
    lemma_turn(at, racks.len() as int);
    let longer = entries.push(one_block(places[k]));
    assert(longer.drop_last() =~= entries);
    let next = (at + 1) % (racks.len() as int);
    let next_level = if at < cursor || at + 1 == racks.len() {
        level + 1
    } else {
        level
    };
    assert forall|t: int| 0 <= t < racks.len() implies rack_blocks(longer, #[trigger] racks[t])
        <= turn_level(t, next, next_level) && (rack_open(places, longer, max_per_node, racks[t])
        ==> rack_blocks(longer, racks[t]) == turn_level(t, next, next_level)) by {
        assert(rack_blocks(entries, racks[t]) <= turn_level(t, cursor, level));
        if t != at {
            assert(racks[t] != racks[at]);
            if rack_open(places, longer, max_per_node, racks[t]) {
                let j = choose|j: int|
                    0 <= j < places.len() && has_room(
                        #[trigger] places[j],
                        longer,
                        max_per_node,
                        Some(racks[t]),
                    );
                assert(places[j].node_id != places[k].node_id);
                assert(has_room(places[j], entries, max_per_node, Some(racks[t])));
                assert(rack_open(places, entries, max_per_node, racks[t]));
            }
        }
    }
    next_level
}

proof fn lemma_racks_level(
    places: Seq<DiskLocation>,
    racks: Seq<u64>,
    entries: Seq<PlacementEntry>,
    total: nat,
    max_per_node: nat,
    cursor: int,
    level: int,
) -> (last: (int, int))
    requires
        racks.no_duplicates(),
        nodes_have_one_rack(places),
        0 <= cursor < racks.len(),
        racks_level(places, racks, entries, max_per_node, cursor, level),
    ensures
        distribution(
            places,
            racks,
            entries,
            total,
            max_per_node,
            FailureDomainPriority::RackFirst,
            cursor,
        ) matches Some(done) ==> racks_level(places, racks, done, max_per_node, last.0, last.1),
    decreases total - entries.len(),
{
    let priority = FailureDomainPriority::RackFirst;
    if entries.len() >= total {
        (cursor, level)
    } else {
        match open_rack(places, racks, entries, max_per_node, cursor, racks.len()) {
            Some(at) => {
                lemma_first_open_rack(places, racks, entries, max_per_node, cursor, racks.len());
                lemma_rack_open(places, entries, max_per_node, racks[at]);
                lemma_best_place(
                    places,
                    entries,
                    max_per_node,
                    Some(racks[at]),
                    priority,
                    places.len(),
                );
                let k = best_place(
                    places,
                    entries,
                    max_per_node,
                    Some(racks[at]),
                    priority,
                    places.len(),
                )->0;
                let next_level = lemma_racks_level_step(
                    places,
                    racks,
                    entries,
                    max_per_node,
                    cursor,
                    level,
                    at,
                    k,
                );
                lemma_racks_level(
                    places,
                    racks,
                    entries.push(one_block(places[k])),
                    total,
                    max_per_node,
                    (at + 1) % (racks.len() as int),
                    next_level,
                )
            },
            None => (cursor, level),
        }
    }
}

/// Blocks on a run of racks together.
spec fn blocks_on_racks(entries: Seq<PlacementEntry>, racks: Seq<u64>) -> int
    decreases racks.len(),
{
    if racks.len() == 0 {
        0
    } else {
        blocks_on_racks(entries, racks.drop_last()) + rack_blocks(entries, racks.last())
    }
}

proof fn lemma_blocks_on_racks_push(
    entries: Seq<PlacementEntry>,
    entry: PlacementEntry,
    racks: Seq<u64>,
)
    requires
        ascending(racks),
    ensures
        blocks_on_racks(entries.push(entry), racks) == blocks_on_racks(entries, racks) + (
        if racks.contains(entry.rack_id) {
            entry.block_count as int
        } else {
            0
        }),
    decreases racks.len(),
{
    assert(entries.push(entry).drop_last() =~= entries);
    if racks.len() > 0 {
        let front = racks.drop_last();
        lemma_blocks_on_racks_push(entries, entry, front);
        if front.contains(entry.rack_id) {
            let k = choose|k: int| 0 <= k < front.len() && front[k] == entry.rack_id;
            assert(racks[k] < racks[racks.len() - 1]);
            assert(racks[k] == entry.rack_id);
        }
        if racks.contains(entry.rack_id) {
            let k = choose|k: int| 0 <= k < racks.len() && racks[k] == entry.rack_id;
            if k < front.len() {
                assert(front[k] == entry.rack_id);
            }
        }
        assert(racks.last() == racks[racks.len() - 1]);
    }
}

proof fn lemma_no_blocks_on_racks(entries: Seq<PlacementEntry>, racks: Seq<u64>)
    requires
        entries.len() == 0,
    ensures
        blocks_on_racks(entries, racks) == 0,
    decreases racks.len(),
{
    if racks.len() > 0 {
        lemma_no_blocks_on_racks(entries, racks.drop_last());
    }
}

proof fn lemma_blocks_on_all_racks(places: Seq<DiskLocation>, entries: Seq<PlacementEntry>)
    requires
        forall|i: int| 0 <= i < entries.len() ==> stands_on(places, #[trigger] entries[i]),
    ensures
        blocks_on_racks(entries, racks_of(places)) == entries.len(),
    decreases entries.len(),
{
    lemma_racks_of(places);
    if entries.len() == 0 {
        lemma_no_blocks_on_racks(entries, racks_of(places));
    } else {
        let front = entries.drop_last();
        let last = entries[entries.len() - 1];
        assert forall|i: int| 0 <= i < front.len() implies stands_on(places, #[trigger] front[i]) by {
            assert(front[i] == entries[i]);
        }
        lemma_blocks_on_all_racks(places, front);
        assert(entries =~= front.push(last));
        lemma_blocks_on_racks_push(front, last, racks_of(places));
        assert(stands_on(places, last));
        let k = choose|k: int| 0 <= k < places.len() && one_block(#[trigger] places[k]) == last;
        assert(racks_of(places).contains(places[k].rack_id));
    }
}

proof fn lemma_fewer_on_racks(
    some: Seq<PlacementEntry>,
    all: Seq<PlacementEntry>,
    racks: Seq<u64>,
    at: int,
)
    requires
        forall|t: int|
            0 <= t < racks.len() ==> rack_blocks(some, #[trigger] racks[t]) <= rack_blocks(
                all,
                racks[t],
            ),
        0 <= at < racks.len() ==> rack_blocks(some, racks[at]) < rack_blocks(all, racks[at]),
    ensures
        blocks_on_racks(some, racks) <= blocks_on_racks(all, racks),
        0 <= at < racks.len() ==> blocks_on_racks(some, racks) < blocks_on_racks(all, racks),
    decreases racks.len(),
{
    if racks.len() > 0 {
        let front = racks.drop_last();
        assert(racks.last() == racks[racks.len() - 1]);
        assert forall|t: int| 0 <= t < front.len() implies rack_blocks(some, #[trigger] front[t])
            <= rack_blocks(all, front[t]) by {
            assert(front[t] == racks[t]);
        }
        lemma_fewer_on_racks(some, all, front, at);
    }
}

proof fn lemma_peak_attained(entries: Seq<PlacementEntry>, n: nat) -> (i: int)
    requires
        0 < n <= entries.len(),
        peak_rack_blocks(entries, n) > 0,
    ensures
        0 <= i < n,
        rack_blocks(entries, entries[i].rack_id) == peak_rack_blocks(entries, n),
    decreases n,
{
    let front = peak_rack_blocks(entries, (n - 1) as nat);
    let own = rack_blocks(entries, entries[n - 1].rack_id);
    if own > front {
        n - 1
    } else {
        lemma_peak_attained(entries, (n - 1) as nat)
    }
}

proof fn lemma_rack_below_peak(entries: Seq<PlacementEntry>, rack_id: u64)
    ensures
        0 <= rack_blocks(entries, rack_id) <= peak_rack_blocks(entries, entries.len()),
{
    crate::selector::lemma_peaks(entries, entries.len());
    crate::selector::lemma_blocks_bounded(entries, rack_id);
    if rack_blocks(entries, rack_id) > 0 {
        let i = lemma_rack_named(entries, rack_id);
        assert(rack_blocks(entries, entries[i].rack_id) <= peak_rack_blocks(
            entries,
            entries.len(),
        ));
    }
}

proof fn lemma_rack_named(entries: Seq<PlacementEntry>, rack_id: u64) -> (i: int)
    requires
        rack_blocks(entries, rack_id) > 0,
    ensures
        0 <= i < entries.len(),
        entries[i].rack_id == rack_id,
    decreases entries.len(),
{
    if entries.last().rack_id == rack_id {
        entries.len() - 1
    } else {
        lemma_rack_named(entries.drop_last(), rack_id)
    }
}

/// A rack holds no more than its nodes have room for, and that many where none
/// has room left.
proof fn lemma_rack_capacity(
    places: Seq<DiskLocation>,
    entries: Seq<PlacementEntry>,
    max_per_node: nat,
    rack_id: u64,
)
    requires
        spread_over(places, entries, max_per_node),
        nodes_have_one_rack(places),
    ensures
        rack_blocks(entries, rack_id) <= max_per_node * nodes_of(on_rack(places, rack_id)).len(),
        !rack_open(places, entries, max_per_node, rack_id) ==> rack_blocks(entries, rack_id)
            == max_per_node * nodes_of(on_rack(places, rack_id)).len(),
{
    let rows = on_rack(places, rack_id);
    let own = rack_entries(entries, rack_id);
    let nodes = nodes_of(rows);
    lemma_rack_entries(places, entries, rack_id, max_per_node);
    lemma_node_count_bound(rows, own, max_per_node);
    if !rack_open(places, entries, max_per_node, rack_id) {
        lemma_on_rack(places, rack_id);
        lemma_nodes_of(rows);
        assert forall|i: int| 0 <= i < nodes.len() implies node_blocks(own, #[trigger] nodes[i])
            == max_per_node by {
            assert(nodes.contains(nodes[i]));
            let j = choose|j: int| 0 <= j < rows.len() && (#[trigger] rows[j]).node_id == nodes[i];
            assert(places.contains(rows[j]));
            let k = choose|k: int| 0 <= k < places.len() && places[k] == rows[j];
            assert(!has_room(places[k], entries, max_per_node, Some(rack_id)));
            assert(node_blocks(entries, nodes[i]) <= max_per_node);
        }
        lemma_full_nodes(rows, own, max_per_node);
    }
}

/// Where racks come first and every node stands on one rack, no other way to
/// place as many blocks within the limit per node has a smaller largest rack.
pub proof fn law_rack_first_is_even(
    places: Seq<DiskLocation>,
    total: nat,
    max_per_node: nat,
    other: Seq<PlacementEntry>,
)
    requires
        places.len() > 0,
        nodes_have_one_rack(places),
        spread_over(places, other, max_per_node),
        other.len() == total,
    ensures
        crate::selector::ec::distributed(
            places,
            total,
            max_per_node,
            FailureDomainPriority::RackFirst,
        ) matches Some(entries) && peak_rack_blocks(entries, entries.len()) <= peak_rack_blocks(
            other,
            other.len(),
        ),
{
    let priority = FailureDomainPriority::RackFirst;
    let racks = racks_of(places);
    let none = Seq::<PlacementEntry>::empty();
    crate::selector::ec::law_distribution(places, total, max_per_node, priority);
    lemma_node_count_bound(places, other, max_per_node);
    lemma_racks_of(places);
    let entries = crate::selector::ec::distributed(places, total, max_per_node, priority)->0;
    assert(racks.no_duplicates());
    assert(racks_level(places, racks, none, max_per_node, 0, 0));
    let last = lemma_racks_level(places, racks, none, total, max_per_node, 0, 0);
    let peak = peak_rack_blocks(entries, entries.len());
    let low = peak_rack_blocks(other, other.len());
    lemma_rack_below_peak(other, 0);
    if peak > low {
        if entries.len() > 0 {
            let i = lemma_peak_attained(entries, entries.len());
            assert(stands_on(places, entries[i]));
            let k = choose|k: int| 0 <= k < places.len() && one_block(#[trigger] places[k])
                == entries[i];
            assert(racks.contains(places[k].rack_id));
            let at = choose|at: int| 0 <= at < racks.len() && racks[at] == entries[i].rack_id;
            assert forall|t: int| 0 <= t < racks.len() implies rack_blocks(other, #[trigger] racks[t])
                <= rack_blocks(entries, racks[t]) by {
                lemma_rack_below_peak(other, racks[t]);
                lemma_rack_capacity(places, entries, max_per_node, racks[t]);
                lemma_rack_capacity(places, other, max_per_node, racks[t]);
                assert(rack_blocks(entries, racks[at]) <= turn_level(at, last.0, last.1));
            }
            lemma_rack_below_peak(other, racks[at]);
            lemma_fewer_on_racks(other, entries, racks, at);
            lemma_blocks_on_all_racks(places, entries);
            lemma_blocks_on_all_racks(places, other);
        }
    }
}

} // verus!
