//! Allocation of blocks over the disk services.
use crowdb_chunkdb::allocator::pool::{
    after_allocate_call, fan_out_result, free_requests, free_result, CallOutcome,
    DiskdbClientPool, DiskdbInstance, RetryStep,
};
use crowdb_chunkdb::allocator::rounds::{
    absorb_round, finish_ordered_allocation, grouped_requests, ordered_requests, rollback_or_error,
    validate_segment, OrderedStep, RoundStep,
};
use crowdb_chunkdb::allocator::strips::{
    after_strip, assemble_strip, batch_sequence, collect_strips, first_turn, unit_kb_of,
    BatchOutcome, ChunkAllocator, ReplacementOutcome, StripTurn,
};
use crowdb_chunkdb::allocator::{AllocError, StripAllocType, StripBatchSpec};
use crowdb_chunkdb::selector::{PlacementConstraints, PlacementEntry};
use crowdb_chunkdb::topology::cache::{assemble_snapshot, DiskRecord};
use crowdb_chunkdb::topology::{
    DiskGroupEntry, DiskGroupValue, HwStatus, NodeRow, RackRow, TopologySnapshot,
};
use crowdb_chunkdb::types::{ChunkId, ChunkStrip, DiskId, EcState, Segment, Strip};

const OWNER: ChunkId = ChunkId { high: 4, low: 5 };

fn disk(n: u64) -> DiskId {
    DiskId { high: 7, low: n }
}

fn segment(n: u64) -> Segment {
    Segment {
        disk_id: Some(disk(n)),
        owner_chunk: Some(OWNER),
        zone_index: 0,
        unit_offset: n,
        unit_count: 8,
        allocation_ts: 1,
    }
}

fn group(dg: u64) -> DiskGroupEntry {
    DiskGroupEntry {
        rack_id: dg,
        node_id: dg,
        dg_id: dg,
        value: DiskGroupValue { status: HwStatus::Up, disk_ids: vec![disk(dg)] },
    }
}

fn pool() -> DiskdbClientPool {
    let mut pool = DiskdbClientPool::new();
    pool.update_disk_id_lookup(&[group(1), group(2), group(3)]);
    pool.refresh_endpoints(&[
        DiskdbInstance { rpc_endpoint: "one".to_string(), owned_dg_ids: vec![1, 2] },
        DiskdbInstance { rpc_endpoint: "three".to_string(), owned_dg_ids: vec![3] },
    ]);
    pool
}

fn entry(dg: u64, count: u32) -> PlacementEntry {
    PlacementEntry { rack_id: dg, node_id: dg, disk_group_id: dg, block_count: count }
}

fn snapshot() -> TopologySnapshot {
    let mut racks = Vec::new();
    let mut nodes = Vec::new();
    let mut groups = Vec::new();
    let mut disks = Vec::new();
    for n in 1..=4u64 {
        racks.push(RackRow { rack_id: n, status: HwStatus::Up, node_ids: vec![n] });
        nodes.push(NodeRow { rack_id: n, node_id: n, status: HwStatus::Up, dg_ids: vec![n] });
        groups.push(group(n));
        disks.push(DiskRecord {
            disk_id: disk(n),
            rack_id: n,
            node_id: n,
            disk_group_id: n,
            status: HwStatus::Up,
            unit_size_bytes: 4096,
        });
    }
    assemble_snapshot(racks, nodes, groups, &disks, &[]).unwrap()
}

#[test]
fn pool_knows_disks_and_endpoints() {
    let pool = pool();
    assert_eq!(pool.dg_for_disk(&disk(2)), Some(2));
    assert_eq!(pool.dg_for_disk(&disk(9)), None);
    assert_eq!(pool.endpoint_for_dg(3), Ok("three".to_string()));
    assert_eq!(pool.endpoint_for_dg(9), Err("no endpoint cached for disk_group 9".to_string()));
    let mut all = pool.all_endpoints();
    all.sort();
    assert_eq!(all, vec!["one".to_string(), "one".to_string(), "three".to_string()]);
}

#[test]
fn later_endpoints_replace_earlier_ones() {
    let mut pool = pool();
    pool.refresh_endpoints(&[DiskdbInstance {
        rpc_endpoint: "other".to_string(),
        owned_dg_ids: vec![1],
    }]);
    assert_eq!(pool.endpoint_for_dg(1), Ok("other".to_string()));
}

#[test]
fn segments_are_grouped_by_their_disk() {
    let mut lost = segment(9);
    lost.disk_id = Some(disk(99));
    let grouped = pool().group_segments(&[segment(1), lost, segment(2), segment(1)]);
    assert_eq!(grouped.groups.len(), 2);
    assert_eq!(grouped.groups[0].dg_id, 1);
    assert_eq!(grouped.groups[0].segments, vec![segment(1), segment(1)]);
    assert_eq!(grouped.unrouted, vec![lost]);
    let all = vec!["a".to_string(), "b".to_string()];
    let requests = free_requests(grouped, &[Some("x".to_string()), None], &all);
    assert_eq!(requests.routed.len(), 1);
    assert_eq!(requests.routed[0].endpoint, "x");
    assert!(requests.broadcasts);
    assert_eq!(requests.broadcast.len(), 2);
    assert_eq!(requests.broadcast[0].endpoint, "a");
    assert_eq!(requests.broadcast[0].segments.len(), 2);
    assert_eq!(requests.broadcast[1].endpoint, "b");
}

#[test]
fn every_routed_free_has_to_be_accepted() {
    assert_eq!(free_result(&[true, true], &[], false), Ok(()));
    assert_eq!(free_result(&[true], &[false, true], true), Ok(()));
    assert_eq!(
        free_result(&[true, false], &[], false),
        Err("some free_blocks RPCs failed (2 attempts)".to_string())
    );
    assert_eq!(
        free_result(&[true], &[false, false], true),
        Err("some free_blocks RPCs failed (3 attempts)".to_string())
    );
    assert_eq!(
        free_result(&[], &[false], true),
        Err("all free_blocks RPCs failed (1 attempts)".to_string())
    );
    assert_eq!(
        free_result(&[], &[], true),
        Err("no endpoints available for free_blocks".to_string())
    );
}

#[test]
fn one_accepted_call_is_enough() {
    assert_eq!(fan_out_result("commit", &[false, true]), Ok(()));
    assert_eq!(
        fan_out_result("commit", &[]),
        Err("no endpoints available for commit".to_string())
    );
    assert_eq!(
        fan_out_result("commit", &[false, false]),
        Err("all commit RPCs failed (2 attempts)".to_string())
    );
}

#[test]
fn unreachable_service_is_tried_again() {
    assert_eq!(after_allocate_call(0, CallOutcome::Unreachable), RetryStep::Retry(200));
    assert_eq!(after_allocate_call(1, CallOutcome::Unreachable), RetryStep::Retry(400));
    assert_eq!(after_allocate_call(2, CallOutcome::Unreachable), RetryStep::Return);
    assert_eq!(after_allocate_call(0, CallOutcome::Refused), RetryStep::Return);
    assert_eq!(after_allocate_call(0, CallOutcome::Completed), RetryStep::Return);
}

#[test]
fn foreign_segments_are_faults() {
    let pool = pool();
    assert_eq!(validate_segment(&pool, &segment(1), 1, &OWNER, 8), None);
    assert_eq!(
        validate_segment(&pool, &segment(1), 2, &OWNER, 8),
        Some("segment disk does not belong to requested disk_group".to_string())
    );
    assert_eq!(
        validate_segment(&pool, &segment(1), 1, &OWNER, 9),
        Some("requested unit_count 9, got 8".to_string())
    );
    let mut bare = segment(1);
    bare.disk_id = None;
    assert_eq!(
        validate_segment(&pool, &bare, 1, &OWNER, 8),
        Some("segment has no disk_id".to_string())
    );
    let other = ChunkId { high: 0, low: 0 };
    assert_eq!(
        validate_segment(&pool, &segment(1), 1, &other, 8),
        Some("owner_chunk does not match request".to_string())
    );
}

#[test]
fn short_responses_are_asked_for_again() {
    let entries = [entry(1, 2), entry(2, 1)];
    let pending = grouped_requests(&entries);
    assert_eq!(pending, vec![(1, 2), (2, 1)]);
    let step = absorb_round(
        &pool(),
        &entries,
        0,
        Vec::new(),
        &pending,
        vec![Ok(vec![segment(1)]), Ok(vec![segment(2)])],
        &OWNER,
        8,
    );
    match step {
        RoundStep::Go { segments, pending } => {
            assert_eq!(segments, vec![segment(1), segment(2)]);
            assert_eq!(pending, vec![(1, 1)]);
        }
        RoundStep::Fail { error, .. } => panic!("{}", error.message()),
    }
}

#[test]
fn last_round_may_miss_nothing() {
    let entries = [entry(1, 2)];
    let step = absorb_round(
        &pool(),
        &entries,
        3,
        vec![segment(1)],
        &[(1, 1)],
        vec![Ok(Vec::new())],
        &OWNER,
        8,
    );
    match step {
        RoundStep::Fail { free, error } => {
            assert_eq!(free, vec![segment(1)]);
            assert_eq!(error.message(), "partial allocation: requested 2, got 1");
        }
        RoundStep::Go { .. } => panic!("incomplete allocation"),
    }
}

#[test]
fn failed_request_frees_what_came() {
    let entries = [entry(1, 1), entry(2, 1)];
    let step = absorb_round(
        &pool(),
        &entries,
        0,
        Vec::new(),
        &[(1, 1), (2, 1)],
        vec![Err("down".to_string()), Ok(vec![segment(2)])],
        &OWNER,
        8,
    );
    match step {
        RoundStep::Fail { free, error } => {
            assert_eq!(free, vec![segment(2)]);
            assert_eq!(error.message(), "diskdb allocate failed for disk_group 1: down");
        }
        RoundStep::Go { .. } => panic!("failed request"),
    }
    let step = absorb_round(
        &pool(),
        &entries,
        0,
        Vec::new(),
        &[(1, 1), (2, 1)],
        vec![Ok(vec![segment(1), segment(1)]), Ok(vec![segment(2)])],
        &OWNER,
        8,
    );
    match step {
        RoundStep::Fail { free, error } => {
            assert_eq!(
                error.message(),
                "invalid diskdb allocation response for disk_group 1: requested 1 segments, got 2"
            );
            assert_eq!(free, vec![segment(1), segment(1), segment(2)]);
        }
        RoundStep::Go { .. } => panic!("too many segments"),
    }
}

#[test]
fn ordered_allocation_keeps_the_plan_order() {
    let entries = [entry(2, 1), entry(1, 1), entry(2, 1)];
    let requests = ordered_requests(&entries);
    let responses = requests
        .iter()
        .map(|(dg, count)| {
            Ok((0..*count)
                .map(|i| Segment { unit_offset: 10 * dg + u64::from(i), ..segment(*dg) })
                .collect())
        })
        .collect();
    match finish_ordered_allocation(&pool(), &entries, responses, &OWNER, 8) {
        OrderedStep::Done(segments) => {
            let disks: Vec<u64> =
                segments.iter().map(|segment| segment.disk_id.unwrap().low).collect();
            assert_eq!(disks, vec![2, 1, 2]);
        }
        OrderedStep::Fail { error, .. } => panic!("{}", error.message()),
    }
}

#[test]
fn failed_rollback_names_both_errors() {
    let cause = AllocError::PartialAllocation { requested: 2, got: 1 };
    let error = rollback_or_error(cause, Err(AllocError::Rollback("stuck".to_string())));
    assert_eq!(
        error.message(),
        "rollback failed: partial allocation: requested 2, got 1; rollback failed: stuck"
    );
    let cause = AllocError::PartialAllocation { requested: 2, got: 1 };
    assert_eq!(
        rollback_or_error(cause, Ok(())).message(),
        "partial allocation: requested 2, got 1"
    );
}

#[test]
fn strips_are_assembled() {
    let mirror = assemble_strip(
        &[segment(1), segment(2)],
        StripAllocType::Mirror { copy_count: 2 },
        7,
        8,
        4,
        99,
    );
    assert_eq!(mirror.capacity, 32);
    assert_eq!(mirror.strip_sequence, 7);
    assert_eq!(mirror.create_ts_ms, 99);
    let ec = assemble_strip(
        &[segment(1), segment(2), segment(3)],
        StripAllocType::Ec { data_num: 2, code_num: 1 },
        0,
        8,
        4,
        99,
    );
    assert_eq!(ec.capacity, 64);
    match ec.strip {
        Some(Strip::EcStrip(body)) => {
            assert_eq!((body.data_num, body.code_num, body.ec_state), (2, 1, EcState::NoParity));
        }
        _ => panic!("wrong layout"),
    }
    assert_eq!(unit_kb_of(4096), 4);
    assert_eq!(unit_kb_of(512), 1);
}

#[test]
fn batch_fails_as_a_whole() {
    let strip = || {
        assemble_strip(&[segment(1)], StripAllocType::Mirror { copy_count: 1 }, 0, 8, 4, 1)
    };
    match collect_strips(vec![Ok(strip()), Ok(strip())]) {
        BatchOutcome::Done(strips) => assert_eq!(strips.len(), 2),
        BatchOutcome::Fail { .. } => panic!("all strips are there"),
    }
    let failed: Vec<Result<ChunkStrip, AllocError>> = vec![
        Ok(strip()),
        Err(AllocError::PartialAllocation { requested: 1, got: 0 }),
        Ok(strip()),
    ];
    match collect_strips(failed) {
        BatchOutcome::Fail { rollback, error } => {
            assert_eq!(rollback.len(), 2);
            assert_eq!(error.message(), "partial allocation: requested 1, got 0");
        }
        BatchOutcome::Done(_) => panic!("one strip is missing"),
    }
    let spec = StripBatchSpec {
        strip_type: StripAllocType::Mirror { copy_count: 1 },
        unit_count: 1,
        start_sequence: 5,
        strip_count: 3,
    };
    assert_eq!(batch_sequence(&spec, 2), 7);
}

#[test]
fn strip_plans_follow_the_layout() {
    let mut allocator = ChunkAllocator::new(pool());
    let snap = snapshot();
    let constraints = PlacementConstraints::new();
    let plan = allocator
        .plan_strip(&snap, StripAllocType::Mirror { copy_count: 3 }, &constraints)
        .unwrap();
    assert_eq!(plan.total_blocks(), 3);
    let plan = allocator
        .plan_strip(&snap, StripAllocType::Ec { data_num: 3, code_num: 1 }, &constraints)
        .unwrap();
    assert_eq!(plan.total_blocks(), 4);
    match allocator.plan_strip(&snap, StripAllocType::Mirror { copy_count: 5 }, &constraints) {
        Err(error) => {
            assert_eq!(error.message(), "placement failed: insufficient nodes: need 5, have 4")
        }
        Ok(_) => panic!("five copies on four nodes"),
    }
    assert_eq!(allocator.pool().dg_for_disk(&disk(4)), Some(4));
}

#[test]
fn replacement_avoids_excluded_disks() {
    let mut allocator = ChunkAllocator::new(pool());
    let snap = snapshot();
    let constraints = PlacementConstraints::new().exclude_node(1);
    let entry = allocator
        .plan_replacement_segment(&snap, &constraints, &[disk(2), disk(3)])
        .unwrap();
    assert_eq!(entry.disk_group_id, 4);
    match allocator.check_replacement_segment(vec![segment(3)], 3, &OWNER, 8) {
        ReplacementOutcome::Done(found) => assert_eq!(found, segment(3)),
        ReplacementOutcome::Fail { error, .. } => panic!("{}", error.message()),
    }
    match allocator.check_replacement_segment(vec![segment(1)], 3, &OWNER, 8) {
        ReplacementOutcome::Fail { free, .. } => assert_eq!(free, vec![segment(1)]),
        ReplacementOutcome::Done(_) => panic!("foreign segment"),
    }
}

#[test]
fn conversion_group_shares_the_plan() {
    let segments: Vec<Segment> =
        (0..7u64).map(|i| Segment { unit_offset: i, ..segment(i + 1) }).collect();
    let group = ChunkAllocator::assemble_conversion_group(&segments, 8, 4, 10, 2, 1, 3, 5);
    assert_eq!(group.mirrors.len(), 2);
    assert_eq!(group.parity_segments.len(), 1);
    assert_eq!(group.preferred_survivors.len(), 2);
    assert_eq!(group.mirrors[1].strip_sequence, 11);
    assert_eq!(group.mirrors[0].mirror_segments().len(), 3);
    let mut rollback =
        ChunkAllocator::rollback_conversion_group(&group.mirrors, &group.parity_segments);
    rollback.sort_by_key(|segment| segment.unit_offset);
    assert_eq!(rollback, segments);
}

#[test]
fn strips_are_allocated_in_turn() {
    let spec = StripBatchSpec {
        strip_type: StripAllocType::Mirror { copy_count: 2 },
        unit_count: 8,
        start_sequence: 5,
        strip_count: 2,
    };
    let strip = |sequence| {
        assemble_strip(&[segment(1), segment(2)], spec.strip_type, sequence, 8, 4, 1)
    };
    let mut strips: Vec<ChunkStrip> = Vec::new();
    assert!(matches!(first_turn(&spec), StripTurn::Allocate { sequence: 5 }));
    let turn = after_strip(&spec, &mut strips, Ok(strip(5)));
    assert!(matches!(turn, StripTurn::Allocate { sequence: 6 }));
    let mut other = strips.clone();
    let failed = AllocError::AllocateFailed { dg_id: 3, error: "down".to_string() };
    match after_strip(&spec, &mut other, Err(failed)) {
        StripTurn::Fail(error) => {
            assert_eq!(error.message(), "diskdb allocate failed for disk_group 3: down");
        }
        _ => panic!("the strip failed"),
    }
    assert_eq!(other.len(), 1);
    assert!(matches!(after_strip(&spec, &mut strips, Ok(strip(6))), StripTurn::Done));
    assert_eq!(strips.iter().map(|made| made.strip_sequence).collect::<Vec<u32>>(), vec![5, 6]);
    let nothing = StripBatchSpec { strip_count: 0, ..spec };
    assert!(matches!(first_turn(&nothing), StripTurn::Done));
}
