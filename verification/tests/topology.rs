//! The topology, its cache, and the placement of strips over it.
use crowdb_chunkdb::selector::ec::{try_distribute, EcPlacement};
use crowdb_chunkdb::selector::mirror::{select_in_order, MirrorPlacement};
use crowdb_chunkdb::selector::{
    assess_entries, collect_nodes, collect_racks, healthy_dgs, PlacementConstraints,
    PlacementEntry, PlacementError,
};
use crowdb_chunkdb::topology::cache::{
    assemble_snapshot, merge_live_usages, DiskRecord, TopologyCache, UsageReport,
};
use crowdb_chunkdb::topology::capacity::CapacityScore;
use crowdb_chunkdb::topology::{
    DiskGroupEntry, DiskGroupUsageSummary, DiskGroupValue, DiskLocation, HwStatus, NodeRow, RackRow,
    TopologySnapshot,
};
use crowdb_chunkdb::types::{DiskId, FailureDomainPriority};

fn disk(dg: u64) -> DiskId {
    DiskId { high: 0, low: dg }
}

fn group(rack: u64, node: u64, dg: u64, status: HwStatus) -> DiskGroupEntry {
    DiskGroupEntry {
        rack_id: rack,
        node_id: node,
        dg_id: dg,
        value: DiskGroupValue { status, disk_ids: vec![disk(dg)] },
    }
}

fn summary(dg: u64, capacity: u64, used: u64) -> DiskGroupUsageSummary {
    DiskGroupUsageSummary {
        disk_group_id: dg,
        allocatable_disk_count: 1,
        allocatable_capacity_bytes: capacity,
        allocatable_used_bytes: used,
        allocatable_free_bytes: capacity - used,
        sampled_at_ms: 5,
    }
}

/// Racks 1 to 3 with two nodes each, and one disk-group on each node: node 10 * rack + n
/// holds disk-group 100 * rack + n.
fn snapshot() -> TopologySnapshot {
    let mut racks = Vec::new();
    let mut nodes = Vec::new();
    let mut groups = Vec::new();
    let mut disks = Vec::new();
    let mut reports = Vec::new();
    for rack in 1..=3u64 {
        racks.push(RackRow {
            rack_id: rack,
            status: HwStatus::Up,
            node_ids: vec![rack * 10, rack * 10 + 1],
        });
        for n in 0..2u64 {
            let node = rack * 10 + n;
            let dg = rack * 100 + n;
            nodes.push(NodeRow {
                rack_id: rack,
                node_id: node,
                status: HwStatus::Up,
                dg_ids: vec![dg],
            });
            groups.push(group(rack, node, dg, HwStatus::Up));
            disks.push(DiskRecord {
                disk_id: disk(dg),
                rack_id: rack,
                node_id: node,
                disk_group_id: dg,
                status: HwStatus::Up,
                unit_size_bytes: 4096,
            });
            reports.push(UsageReport { dg_id: dg, summary: summary(dg, 1_000, 10 * dg % 500) });
        }
    }
    assemble_snapshot(racks, nodes, groups, &disks, &reports).unwrap()
}

#[test]
fn empty_inventory_gives_no_snapshot() {
    assert!(assemble_snapshot(Vec::new(), Vec::new(), Vec::new(), &[], &[]).is_none());
}

#[test]
fn snapshot_joins_the_inventory() {
    let snap = snapshot();
    assert_eq!(snap.disk_group_count(), 6);
    assert_eq!(snap.unit_size_bytes(), 4096);
    assert_eq!(snap.rack_for_node(21), Some(2));
    assert_eq!(snap.rack_for_node(99), None);
    let mut nodes = snap.nodes_in_rack(3);
    nodes.sort_unstable();
    assert_eq!(nodes, vec![30, 31]);
    assert_eq!(
        snap.disk_location(disk(201)),
        Some(DiskLocation { rack_id: 2, node_id: 21, disk_group_id: 201 })
    );
    assert_eq!(snap.disk_group(201).unwrap().value.disk_ids, vec![disk(201)]);
    assert_eq!(snap.healthy_disk_groups().len(), 6);
    let mut racks = snap.rack_ids();
    racks.sort_unstable();
    assert_eq!(racks, vec![1, 2, 3]);
}

#[test]
fn reports_of_unknown_groups_are_dropped() {
    let snap = assemble_snapshot(
        vec![RackRow { rack_id: 1, status: HwStatus::Up, node_ids: vec![] }],
        Vec::new(),
        vec![group(1, 10, 100, HwStatus::Up)],
        &[],
        &[
            UsageReport { dg_id: 100, summary: summary(100, 7, 1) },
            UsageReport { dg_id: 999, summary: summary(999, 7, 1) },
        ],
    )
    .unwrap();
    assert_eq!(snap.disk_group_capacity(100).unwrap().capacity_bytes, 7);
    assert!(snap.disk_group_capacity(999).is_none());
    assert_eq!(snap.unit_size_bytes(), 0);
}

#[test]
fn live_usages_come_over_reported_ones() {
    let mut reports = vec![UsageReport { dg_id: 1, summary: summary(1, 10, 1) }];
    merge_live_usages(&mut reports, &[summary(1, 10, 9), summary(2, 20, 2)]);
    let one = reports.iter().find(|report| report.dg_id == 1).unwrap();
    assert_eq!(one.summary.allocatable_used_bytes, 9);
    assert!(reports.iter().any(|report| report.dg_id == 2));
}

#[test]
fn cache_counts_generations() {
    let mut cache = TopologyCache::new();
    assert!(cache.is_empty());
    cache.replace(snapshot());
    let first = cache.snapshot().generation();
    assert!(!cache.is_empty());
    cache.update_disk_group(group(1, 10, 100, HwStatus::Other(2)));
    assert!(cache.snapshot().generation() > first);
    assert_eq!(cache.snapshot().healthy_disk_groups().len(), 5);
    cache.remove_disk_group(101);
    assert!(cache.snapshot().disk_group(101).is_none());
    cache.update_disk_group_usage(200, &summary(200, 50, 25));
    assert_eq!(cache.snapshot().disk_group_capacity(200).unwrap().used_bytes, 25);
    let place = DiskLocation { rack_id: 9, node_id: 9, disk_group_id: 9 };
    cache.update_disk_location(disk(777), place);
    assert_eq!(cache.snapshot().disk_location(disk(777)), Some(place));
}

#[test]
fn node_that_is_down_takes_its_groups_along() {
    let mut cache = TopologyCache::new();
    cache.replace(snapshot());
    cache.update_node_status(NodeRow {
        rack_id: 1,
        node_id: 10,
        status: HwStatus::Other(3),
        dg_ids: vec![100],
    });
    let healthy: Vec<u64> =
        cache.snapshot().healthy_disk_groups().iter().map(|entry| entry.dg_id).collect();
    assert!(!healthy.contains(&100));
    assert!(healthy.contains(&101));
}

#[test]
fn release_undoes_reservation() {
    let mut snap = snapshot();
    let entries = vec![PlacementEntry { rack_id: 1, node_id: 10, disk_group_id: 100, block_count: 3 }];
    let before = snap.disk_group_capacity(100).unwrap();
    let claim = snap.reserve_plan(&entries, 100);
    assert_eq!(snap.disk_group_capacity(100).unwrap().in_flight_bytes(), 300);
    assert_eq!(snap.disk_group_capacity(100).unwrap().projected_bytes(1), before.used_bytes + 301);
    snap.release(claim);
    assert_eq!(snap.disk_group_capacity(100).unwrap(), before);
}

#[test]
fn claims_survive_updates_of_the_cache() {
    let mut cache = TopologyCache::new();
    cache.replace(snapshot());
    let entries = vec![PlacementEntry { rack_id: 1, node_id: 10, disk_group_id: 100, block_count: 3 }];
    let generation = cache.snapshot().generation();
    let claim = cache.reserve_plan(&entries, 100);
    assert_eq!(cache.snapshot().generation(), generation);
    cache.update_disk_group_usage(100, &summary(100, 5_000, 40));
    cache.replace(snapshot());
    assert_eq!(cache.snapshot().disk_group_capacity(100).unwrap().in_flight_bytes(), 300);
    cache.release(claim);
    assert_eq!(cache.snapshot().disk_group_capacity(100).unwrap().in_flight_bytes(), 0);
}

#[test]
fn claims_on_a_removed_group_are_gone_with_it() {
    let mut cache = TopologyCache::new();
    cache.replace(snapshot());
    let entries = vec![PlacementEntry { rack_id: 1, node_id: 10, disk_group_id: 100, block_count: 3 }];
    let claim = cache.reserve_plan(&entries, 100);
    cache.remove_disk_group(100);
    cache.update_disk_group(group(1, 10, 100, HwStatus::Up));
    cache.update_disk_group_usage(100, &summary(100, 5_000, 40));
    let newer = cache.reserve_plan(&entries, 1);
    cache.release(claim);
    assert_eq!(cache.snapshot().disk_group_capacity(100).unwrap().in_flight_bytes(), 3);
    cache.release(newer);
    assert_eq!(cache.snapshot().disk_group_capacity(100).unwrap().in_flight_bytes(), 0);
}

#[test]
fn scores_compare_utilization() {
    let half = CapacityScore { used: 1, capacity: 2, known: true };
    let third = CapacityScore { used: 1, capacity: 3, known: true };
    let unknown = CapacityScore { used: 0, capacity: 0, known: false };
    assert!(third.is_below(&half));
    assert!(!half.is_below(&third));
    assert!(!half.is_below(&half));
    assert!(half.is_below(&unknown));
    assert!(!unknown.is_below(&half));
    assert!(third < half);
    let snap = snapshot();
    assert!(!snap.capacity_score(999, 0).is_below(&snap.capacity_score(100, 0)));
    let node = snap.node_capacity_score(10, 5);
    assert_eq!((node.used, node.capacity), (10 * 100 % 500 + 5, 1_000));
    let rack = snap.rack_capacity_score(1, 0);
    assert_eq!(rack.capacity, 2_000);
}

#[test]
fn mirror_copies_stand_on_distinct_nodes() {
    let snap = snapshot();
    for _ in 0..20 {
        let plan = MirrorPlacement::select(&snap, 3, &PlacementConstraints::new()).unwrap();
        assert_eq!(plan.entries.len(), 3);
        assert_eq!(plan.total_blocks(), 3);
        let mut racks: Vec<u64> = plan.entries.iter().map(|entry| entry.rack_id).collect();
        racks.sort_unstable();
        assert_eq!(racks, vec![1, 2, 3]);
        let mut nodes: Vec<u64> = plan.entries.iter().map(|entry| entry.node_id).collect();
        nodes.sort_unstable();
        nodes.dedup();
        assert_eq!(nodes.len(), 3);
    }
}

#[test]
fn racks_take_turns_in_a_shuffled_order() {
    let snap = snapshot();
    let mut first_racks = Vec::new();
    for _ in 0..200 {
        let plan = MirrorPlacement::select(&snap, 1, &PlacementConstraints::new()).unwrap();
        first_racks.push(plan.entries[0].rack_id);
    }
    first_racks.sort_unstable();
    first_racks.dedup();
    assert_eq!(first_racks, vec![1, 2, 3]);
}

#[test]
fn mirror_order_follows_the_racks() {
    let snap = snapshot();
    let places = healthy_dgs(&snap, &PlacementConstraints::new());
    let entries = select_in_order(&places, &[2, 3, 1], 4);
    let racks: Vec<u64> = entries.iter().map(|entry| entry.rack_id).collect();
    assert_eq!(racks, vec![2, 3, 1, 2]);
    assert_ne!(entries[0].node_id, entries[3].node_id);
    let all = select_in_order(&places, &[2, 3, 1], 9);
    let racks: Vec<u64> = all.iter().map(|entry| entry.rack_id).collect();
    assert_eq!(racks, vec![2, 3, 1, 2, 3, 1]);
}

fn place(rack_id: u64, node_id: u64) -> DiskLocation {
    DiskLocation { rack_id, node_id, disk_group_id: node_id }
}

#[test]
fn remaining_copies_fill_the_first_rack() {
    let places = [place(1, 10), place(1, 11), place(1, 12), place(2, 20), place(2, 21), place(2, 22)];
    let entries = select_in_order(&places, &[2, 1], 4);
    let racks: Vec<u64> = entries.iter().map(|entry| entry.rack_id).collect();
    assert_eq!(racks, vec![2, 1, 2, 2]);
    let mut nodes: Vec<u64> = entries.iter().map(|entry| entry.node_id).collect();
    nodes.sort_unstable();
    assert_eq!(nodes, vec![10, 20, 21, 22]);
}

#[test]
fn mirror_on_one_rack_is_degraded() {
    let snap = snapshot();
    let one_rack = || PlacementConstraints::new().exclude_rack(2).exclude_rack(3);
    for constraints in [one_rack(), one_rack().allow_degraded_failure_domains()] {
        let plan = MirrorPlacement::select(&snap, 2, &constraints).unwrap();
        assert_eq!(plan.entries.len(), 2);
        assert_ne!(plan.entries[0].node_id, plan.entries[1].node_id);
        assert!(!plan.safe_mode);
        assert!(!plan.protection.rack_protected);
        assert!(plan.protection.node_protected);
    }
    let spread = MirrorPlacement::select(&snap, 2, &PlacementConstraints::new()).unwrap();
    assert!(spread.safe_mode);
    let single = MirrorPlacement::select(&snap, 1, &PlacementConstraints::new()).unwrap();
    assert!(!single.safe_mode);
    assert_eq!(single.protection.loss_budget, 0);
}

#[test]
fn node_first_keeps_to_the_even_share() {
    let places = [place(1, 10), place(1, 11), place(2, 20)];
    let entries = try_distribute(&places, 7, 7, FailureDomainPriority::NodeFirst).unwrap();
    for node in [10u64, 11, 20] {
        let held = entries.iter().filter(|entry| entry.node_id == node).count();
        assert!(held <= 3);
    }
}

#[test]
fn rack_first_keeps_the_largest_rack_small() {
    let places = [place(1, 10), place(2, 20), place(2, 21), place(3, 30), place(3, 31)];
    let entries = try_distribute(&places, 8, 2, FailureDomainPriority::RackFirst).unwrap();
    let held = |rack: u64| entries.iter().filter(|entry| entry.rack_id == rack).count();
    assert_eq!((held(1), held(2), held(3)), (2, 3, 3));
}

#[test]
fn mirror_needs_nodes() {
    let snap = snapshot();
    let constraints = PlacementConstraints::new();
    assert!(matches!(
        MirrorPlacement::select(&snap, 0, &constraints),
        Err(PlacementError::InvalidShape(_))
    ));
    match MirrorPlacement::select(&snap, 7, &constraints) {
        Err(error) => assert_eq!(error.message(), "insufficient nodes: need 7, have 6"),
        Ok(_) => panic!("seven copies on six nodes"),
    }
    assert!(matches!(
        MirrorPlacement::select(&TopologySnapshot::default(), 1, &constraints),
        Err(PlacementError::NoHealthyDiskGroups)
    ));
}

#[test]
fn exclusions_are_respected() {
    let snap = snapshot();
    let constraints =
        PlacementConstraints::new().exclude_rack(1).exclude_node(20).exclude_disk_group(300);
    assert!(constraints.is_rack_excluded(1));
    assert!(constraints.is_node_excluded(20));
    assert!(constraints.is_dg_excluded(300));
    let places = healthy_dgs(&snap, &constraints);
    let mut groups: Vec<u64> = places.iter().map(|place| place.disk_group_id).collect();
    groups.sort_unstable();
    assert_eq!(groups, vec![201, 301]);
    assert_eq!(collect_racks(&places).len(), 2);
    assert_eq!(collect_nodes(&places).len(), 2);
}

#[test]
fn safe_ec_plan_survives_a_node() {
    let snap = snapshot();
    let constraints = PlacementConstraints::new();
    let plan = EcPlacement::select(&snap, 4, 2, &constraints).unwrap();
    assert_eq!(plan.entries.len(), 6);
    assert!(plan.safe_mode);
    for entry in &plan.entries {
        let on_node: u32 = plan
            .entries
            .iter()
            .filter(|other| other.node_id == entry.node_id)
            .map(|other| other.block_count)
            .sum();
        let in_rack: u32 = plan
            .entries
            .iter()
            .filter(|other| other.rack_id == entry.rack_id)
            .map(|other| other.block_count)
            .sum();
        assert!(on_node <= 2);
        assert!(in_rack <= 2);
    }
}

#[test]
fn crowded_ec_plan_needs_permission() {
    let snap = snapshot();
    match EcPlacement::select(&snap, 20, 2, &PlacementConstraints::new()) {
        Err(error) => assert!(matches!(error, PlacementError::UnsafePlacementRequired)),
        Ok(_) => panic!("22 blocks within two per node"),
    }
    let constraints =
        PlacementConstraints::new().allow_unsafe_ec().allow_degraded_failure_domains();
    let plan = EcPlacement::select(&snap, 20, 2, &constraints).unwrap();
    assert_eq!(plan.entries.len(), 22);
    assert!(!plan.safe_mode);
    assert!(matches!(
        EcPlacement::select(&snap, 0, 2, &constraints),
        Err(PlacementError::InvalidShape(_))
    ));
}

#[test]
fn rack_loss_is_within_the_budget_or_refused() {
    let snap = snapshot();
    match EcPlacement::select(&snap, 9, 2, &PlacementConstraints::new()) {
        Err(PlacementError::RackProtectionUnavailable { loss_budget, actual }) => {
            assert_eq!((loss_budget, actual), (2, 4));
        }
        Err(other) => panic!("{}", other.message()),
        Ok(_) => panic!("eleven blocks in three racks"),
    }
}

#[test]
fn distribution_stops_at_the_node_limit() {
    let snap = snapshot();
    let places = healthy_dgs(&snap, &PlacementConstraints::new());
    assert!(try_distribute(&places, 12, 2, FailureDomainPriority::RackFirst).is_some());
    assert!(try_distribute(&places, 13, 2, FailureDomainPriority::RackFirst).is_none());
}

#[test]
fn assessment_counts_fragments() {
    let entry = |rack, node, dg, count| PlacementEntry {
        rack_id: rack,
        node_id: node,
        disk_group_id: dg,
        block_count: count,
    };
    let entries = vec![entry(1, 10, 100, 1), entry(1, 11, 101, 2), entry(2, 20, 200, 1)];
    let protection = assess_entries(&entries, 2);
    assert_eq!(protection.max_fragments_per_rack, 3);
    assert_eq!(protection.max_fragments_per_node, 2);
    assert!(!protection.rack_protected);
    assert!(protection.node_protected);
    assert!(protection.degraded());
}
