//! What a snapshot is made of and what it counts, told on the reports and rows.
use vstd::prelude::*;
use crate::selector::PlacementEntry;
use crate::topology::{
    claim_on, claimed_row, domain_capacity, domain_used, is_planned, planned_bytes, released_row,
    spec_capacity_from_summary, CapacityScore, Claim, DiskGroupCapacity, DiskGroupEntry,
    DiskGroupUsageSummary, DiskLocation, DiskRow, Domain, HwStatus, TopologySnapshot, UsageRow,
};
use crate::topology::cache::{
    disks_of_group, disks_outside, joined_usage, last_group, merged_reports, published_row,
    report_position, up_disks, DiskRecord, UsageReport,
};

verus! {

/// A report is taken over as it is, with nothing claimed.
pub proof fn law_reports_are_taken_over(summary: DiskGroupUsageSummary)
    ensures
        ({
            let capacity = spec_capacity_from_summary(summary);
            &&& capacity.allocatable_disk_count == summary.allocatable_disk_count
            &&& capacity.capacity_bytes == summary.allocatable_capacity_bytes
            &&& capacity.used_bytes == summary.allocatable_used_bytes
            &&& capacity.free_bytes == summary.allocatable_free_bytes
            &&& capacity.sampled_at_ms == summary.sampled_at_ms
            &&& capacity.in_flight == 0
        }),
{
}

/// What will be used is what is used, claimed and planned.
pub proof fn law_projection_adds_up(capacity: DiskGroupCapacity, planned: u64)
    ensures
        capacity.used_bytes + capacity.in_flight + planned <= u64::MAX
            ==> capacity.spec_projected(planned) == capacity.used_bytes + capacity.in_flight
            + planned,
        capacity.used_bytes + capacity.in_flight + planned > u64::MAX ==> capacity.spec_projected(
            planned,
        ) == u64::MAX,
{
}

/// A published usage has the numbers of the report. The claims of a disk-group that
/// was known before stay with it, counted since it was first published; a new one
/// begins without claims now.
pub proof fn law_published_usage_keeps_claims(
    row: UsageRow,
    previous: Map<(u64, u64), UsageRow>,
    generation: u64,
)
    ensures
        ({
            let next = published_row(row, previous, generation);
            let known = previous.dom().contains((row.dg_id, 0));
            &&& next.dg_id == row.dg_id
            &&& next.capacity == DiskGroupCapacity {
                in_flight: if known {
                    previous[(row.dg_id, 0)].capacity.in_flight
                } else {
                    row.capacity.in_flight
                },
                ..row.capacity
            }
            &&& next.since == if known {
                previous[(row.dg_id, 0)].since
            } else {
                generation
            }
        }),
{
}

proof fn lemma_planned_bytes(entries: Seq<PlacementEntry>, bytes_per_block: u64, dg_id: u64)
    ensures
        planned_bytes(entries, bytes_per_block, dg_id) == entries.filter(
            |entry: PlacementEntry| entry.disk_group_id == dg_id,
        ).fold_left(0int, |sum: int, entry: PlacementEntry| sum + bytes_per_block * entry.block_count),
        planned_bytes(entries, bytes_per_block, dg_id) >= 0,
    decreases entries.len(),
{
    reveal(Seq::filter);
    reveal(Seq::fold_left);
    if entries.len() > 0 {
        let on_group = |entry: PlacementEntry| entry.disk_group_id == dg_id;
        lemma_planned_bytes(entries.drop_last(), bytes_per_block, dg_id);
        let front = entries.drop_last().filter(on_group);
        assert(front.push(entries.last()).drop_last() =~= front);
        assert(bytes_per_block * entries.last().block_count >= 0) by (nonlinear_arith);
    }
}

/// A plan claims on every disk-group the bytes of the blocks that it puts there, and
/// leaves all else of the usage as it is.
pub proof fn law_plans_claim_their_blocks(
    row: UsageRow,
    entries: Seq<PlacementEntry>,
    bytes_per_block: u64,
)
    ensures
        ({
            let bytes = entries.filter(
                |entry: PlacementEntry| entry.disk_group_id == row.dg_id,
            ).fold_left(
                0int,
                |sum: int, entry: PlacementEntry| sum + bytes_per_block * entry.block_count,
            );
            let next = claimed_row(row, entries, bytes_per_block);
            &&& row.capacity.in_flight + bytes <= u64::MAX ==> next.capacity.in_flight
                == row.capacity.in_flight + bytes
            &&& next == UsageRow {
                capacity: DiskGroupCapacity { in_flight: next.capacity.in_flight, ..row.capacity },
                ..row
            }
        }),
{
    lemma_planned_bytes(entries, bytes_per_block, row.dg_id);
    if !is_planned(entries, row.dg_id) {
        lemma_nothing_planned(entries, bytes_per_block, row.dg_id);
    }
}

proof fn lemma_nothing_planned(entries: Seq<PlacementEntry>, bytes_per_block: u64, dg_id: u64)
    requires
        !is_planned(entries, dg_id),
    ensures
        planned_bytes(entries, bytes_per_block, dg_id) == 0,
    decreases entries.len(),
{
    if entries.len() > 0 {
        assert(entries[entries.len() - 1] == entries.last());
        assert(entries.last().disk_group_id != dg_id);
        assert(!is_planned(entries.drop_last(), dg_id)) by {
            if is_planned(entries.drop_last(), dg_id) {
                let i = choose|i: int|
                    0 <= i < entries.drop_last().len() && (
                    #[trigger] entries.drop_last()[i]).disk_group_id == dg_id;
                assert(entries[i].disk_group_id == dg_id);
            }
        }
        lemma_nothing_planned(entries.drop_last(), bytes_per_block, dg_id);
    }
}

/// What is released is taken off the claims of the usage that it was claimed on, and
/// off no other.
pub proof fn law_release_takes_off_what_was_claimed(row: UsageRow, claims: Seq<Claim>, k: int)
    ensures
        0 <= k < claims.len() && claims[k].dg_id == row.dg_id && claims[k].since == row.since && (
        forall|j: int|
            0 <= j < k ==> (#[trigger] claims[j]).dg_id != row.dg_id || claims[j].since
                != row.since) && claims[k].bytes <= row.capacity.in_flight ==> released_row(
            row,
            claims,
        ) == (UsageRow {
            capacity: DiskGroupCapacity {
                in_flight: (row.capacity.in_flight - claims[k].bytes) as u64,
                ..row.capacity
            },
            ..row
        }),
        (forall|j: int|
            0 <= j < claims.len() ==> (#[trigger] claims[j]).dg_id != row.dg_id || claims[j].since
                != row.since) ==> released_row(row, claims) == row,
{
    if 0 <= k < claims.len() && claims[k].dg_id == row.dg_id && claims[k].since == row.since && (
    forall|j: int|
        0 <= j < k ==> (#[trigger] claims[j]).dg_id != row.dg_id || claims[j].since != row.since) {
        lemma_claim_at(claims, row.dg_id, row.since, k);
    }
    if forall|j: int|
        0 <= j < claims.len() ==> (#[trigger] claims[j]).dg_id != row.dg_id || claims[j].since
            != row.since {
        lemma_no_claim(claims, row.dg_id, row.since);
    }
}

proof fn lemma_claim_at(claims: Seq<Claim>, dg_id: u64, since: u64, k: int)
    requires
        0 <= k < claims.len(),
        claims[k].dg_id == dg_id,
        claims[k].since == since,
        forall|j: int|
            0 <= j < k ==> (#[trigger] claims[j]).dg_id != dg_id || claims[j].since != since,
    ensures
        claim_on(claims, dg_id, since) == Some(claims[k].bytes),
    decreases k,
{
    if k > 0 {
        assert(claims[0].dg_id != dg_id || claims[0].since != since);
        let rest = claims.skip(1);
        assert forall|j: int| 0 <= j < k - 1 implies (#[trigger] rest[j]).dg_id != dg_id
            || rest[j].since != since by {
            assert(rest[j] == claims[j + 1]);
        }
        lemma_claim_at(rest, dg_id, since, k - 1);
    }
}

proof fn lemma_no_claim(claims: Seq<Claim>, dg_id: u64, since: u64)
    requires
        forall|j: int|
            0 <= j < claims.len() ==> (#[trigger] claims[j]).dg_id != dg_id || claims[j].since
                != since,
    ensures
        claim_on(claims, dg_id, since) is None,
    decreases claims.len(),
{
    if claims.len() > 0 {
        assert(claims[0].dg_id != dg_id || claims[0].since != since);
        let rest = claims.skip(1);
        assert forall|j: int| 0 <= j < rest.len() implies (#[trigger] rest[j]).dg_id != dg_id
            || rest[j].since != since by {
            assert(rest[j] == claims[j + 1]);
        }
        lemma_no_claim(rest, dg_id, since);
    }
}

/// The disks that stay when a disk-group goes are those that stand elsewhere.
pub proof fn law_disks_go_with_their_group(rows: Seq<DiskRow>, dg_id: u64)
    ensures
        disks_outside(rows, dg_id) == rows.filter(
            |row: DiskRow| row.location.disk_group_id != dg_id,
        ),
    decreases rows.len(),
{
    reveal(Seq::filter);
    if rows.len() > 0 {
        law_disks_go_with_their_group(rows.drop_last(), dg_id);
    }
}

/// The disks of a disk-group are all that stand at its place, up or not; the disks
/// whose place is known are those that are up, where they stand.
pub proof fn law_disks_are_taken_from_their_records(disks: Seq<DiskRecord>, place: DiskLocation)
    ensures
        disks_of_group(disks, place) == disks.filter(
            |disk: DiskRecord|
                disk.rack_id == place.rack_id && disk.node_id == place.node_id && disk.disk_group_id
                    == place.disk_group_id,
        ).map_values(|disk: DiskRecord| disk.disk_id),
        up_disks(disks) == disks.filter(
            |disk: DiskRecord| disk.status == HwStatus::Up,
        ).map_values(
            |disk: DiskRecord|
                DiskRow {
                    disk_id: disk.disk_id,
                    location: DiskLocation {
                        rack_id: disk.rack_id,
                        node_id: disk.node_id,
                        disk_group_id: disk.disk_group_id,
                    },
                },
        ),
    decreases disks.len(),
{
    reveal(Seq::filter);
    let there = |disk: DiskRecord|
        disk.rack_id == place.rack_id && disk.node_id == place.node_id && disk.disk_group_id
            == place.disk_group_id;
    let id = |disk: DiskRecord| disk.disk_id;
    let up = |disk: DiskRecord| disk.status == HwStatus::Up;
    let row = |disk: DiskRecord|
        DiskRow {
            disk_id: disk.disk_id,
            location: DiskLocation {
                rack_id: disk.rack_id,
                node_id: disk.node_id,
                disk_group_id: disk.disk_group_id,
            },
        };
    if disks.len() > 0 {
        law_disks_are_taken_from_their_records(disks.drop_last(), place);
        let last = disks.last();
        let a = disks.drop_last().filter(there);
        let b = disks.drop_last().filter(up);
        assert(a.push(last).map_values(id) =~= a.map_values(id).push(id(last)));
        assert(b.push(last).map_values(row) =~= b.map_values(row).push(row(last)));
    }
    assert(disks_of_group(disks, place) =~= disks.filter(there).map_values(id));
    assert(up_disks(disks) =~= disks.filter(up).map_values(row));
}

/// Usage is kept of the disk-groups that are known, as it was reported.
pub proof fn law_usage_is_kept_of_known_groups(reports: Seq<UsageReport>, groups: Set<(u64, u64)>)
    ensures
        joined_usage(reports, groups) == reports.filter(
            |report: UsageReport| groups.contains((report.dg_id, 0)),
        ).map_values(
            |report: UsageReport|
                UsageRow {
                    dg_id: report.dg_id,
                    capacity: spec_capacity_from_summary(report.summary),
                    since: 0,
                },
        ),
    decreases reports.len(),
{
    reveal(Seq::filter);
    let known = |report: UsageReport| groups.contains((report.dg_id, 0));
    let row = |report: UsageReport|
        UsageRow {
            dg_id: report.dg_id,
            capacity: spec_capacity_from_summary(report.summary),
            since: 0,
        };
    if reports.len() > 0 {
        law_usage_is_kept_of_known_groups(reports.drop_last(), groups);
        let front = reports.drop_last().filter(known);
        assert(front.push(reports.last()).map_values(row) =~= front.map_values(row).push(
            row(reports.last()),
        ));
    }
    assert(joined_usage(reports, groups) =~= reports.filter(known).map_values(row));
}

/// A disk-group that is listed more than once counts as it is listed last.
pub proof fn law_last_listing_counts(groups: Seq<DiskGroupEntry>, at: int)
    requires
        0 <= at < groups.len(),
        forall|j: int| at < j < groups.len() ==> (#[trigger] groups[j]).dg_id != groups[at].dg_id,
    ensures
        last_group(groups, groups[at].dg_id) == Some(groups[at]),
    decreases groups.len(),
{
    if at < groups.len() - 1 {
        assert(groups[groups.len() - 1].dg_id != groups[at].dg_id);
        let front = groups.drop_last();
        assert forall|j: int| at < j < front.len() implies (#[trigger] front[j]).dg_id
            != front[at].dg_id by {
            assert(front[j] == groups[j]);
        }
        law_last_listing_counts(front, at);
    }
}

proof fn lemma_report_position(reports: Seq<UsageReport>, dg_id: u64)
    ensures
        match report_position(reports, dg_id) {
            Some(i) => 0 <= i < reports.len() && reports[i].dg_id == dg_id && forall|j: int|
                0 <= j < i ==> (#[trigger] reports[j]).dg_id != dg_id,
            None => forall|j: int| 0 <= j < reports.len() ==> (#[trigger] reports[j]).dg_id != dg_id,
        },
    decreases reports.len(),
{
    if reports.len() > 0 {
        lemma_report_position(reports.drop_last(), dg_id);
        let front = reports.drop_last();
        assert(forall|j: int| 0 <= j < front.len() ==> (#[trigger] front[j]) == reports[j]);
        if report_position(front, dg_id) is None {
            assert forall|j: int| 0 <= j < front.len() implies (#[trigger] reports[j]).dg_id
                != dg_id by {
                assert(front[j].dg_id != dg_id);
            }
        } else {
            let i = report_position(front, dg_id)->0;
            assert forall|j: int| 0 <= j < i implies (#[trigger] reports[j]).dg_id != dg_id by {
                assert(front[j].dg_id != dg_id);
            }
        }
    }
}

/// A live report comes over a stored one: where reports are distinct by disk-group,
/// the merged ones are too, the last live report of a disk-group is among them, and a
/// stored one without a live report stays.
pub proof fn law_live_reports_come_over_stored_ones(
    reports: Seq<UsageReport>,
    live: Seq<DiskGroupUsageSummary>,
)
    requires
        forall|i: int, j: int|
            0 <= i < j < reports.len() ==> (#[trigger] reports[i]).dg_id != (
            #[trigger] reports[j]).dg_id,
    ensures
        ({
            let merged = merged_reports(reports, live);
            &&& forall|i: int, j: int|
                0 <= i < j < merged.len() ==> (#[trigger] merged[i]).dg_id != (
                #[trigger] merged[j]).dg_id
            &&& live.len() > 0 ==> merged.contains(
                UsageReport { dg_id: live.last().disk_group_id, summary: live.last() },
            )
            &&& live.len() > 0 ==> forall|report: UsageReport|
                report.dg_id != live.last().disk_group_id ==> (#[trigger] merged.contains(report)
                    <==> merged_reports(reports, live.drop_last()).contains(report))
            &&& live.len() == 0 ==> merged == reports
        }),
    decreases live.len(),
{
    if live.len() > 0 {
        law_live_reports_come_over_stored_ones(reports, live.drop_last());
        let front = merged_reports(reports, live.drop_last());
        let merged = merged_reports(reports, live);
        let report = UsageReport { dg_id: live.last().disk_group_id, summary: live.last() };
        lemma_report_position(front, report.dg_id);
        match report_position(front, report.dg_id) {
            Some(i) => {
                assert(merged[i] == report);
                assert forall|a: int, b: int| 0 <= a < b < merged.len() implies (
                #[trigger] merged[a]).dg_id != (#[trigger] merged[b]).dg_id by {
                    assert(front[a].dg_id != front[b].dg_id);
                }
            },
            None => {
                assert(merged[merged.len() - 1] == report);
                assert forall|a: int, b: int| 0 <= a < b < merged.len() implies (
                #[trigger] merged[a]).dg_id != (#[trigger] merged[b]).dg_id by {
                    if b < front.len() {
                        assert(front[a].dg_id != front[b].dg_id);
                    } else {
                        assert(front[a].dg_id != report.dg_id);
                    }
                }
            },
        }
        assert forall|r: UsageReport| r.dg_id != report.dg_id implies (#[trigger] merged.contains(r)
            <==> front.contains(r)) by {
            if merged.contains(r) {
                let k = choose|k: int| 0 <= k < merged.len() && merged[k] == r;
                assert(k < front.len() && front[k] == r);
            }
            if front.contains(r) {
                let k = choose|k: int| 0 <= k < front.len() && front[k] == r;
                assert(merged[k] == r);
            }
        }
    }
}

/// The space of a node or a rack is that of its disk-groups together.
pub proof fn law_domains_add_up(
    groups: Seq<DiskGroupEntry>,
    usage: Map<(u64, u64), UsageRow>,
    id: u64,
)
    ensures
        domain_capacity(groups, usage, Domain::Node(id)) == groups.filter(
            |group: DiskGroupEntry| group.node_id == id,
        ).fold_left(
            0int,
            |sum: int, group: DiskGroupEntry|
                sum + usage[(group.dg_id, 0)].capacity.capacity_bytes,
        ),
        domain_capacity(groups, usage, Domain::Rack(id)) == groups.filter(
            |group: DiskGroupEntry| group.rack_id == id,
        ).fold_left(
            0int,
            |sum: int, group: DiskGroupEntry|
                sum + usage[(group.dg_id, 0)].capacity.capacity_bytes,
        ),
        domain_used(groups, usage, Domain::Node(id)) == groups.filter(
            |group: DiskGroupEntry| group.node_id == id,
        ).fold_left(
            0int,
            |sum: int, group: DiskGroupEntry|
                sum + usage[(group.dg_id, 0)].capacity.spec_projected(0),
        ),
        domain_used(groups, usage, Domain::Rack(id)) == groups.filter(
            |group: DiskGroupEntry| group.rack_id == id,
        ).fold_left(
            0int,
            |sum: int, group: DiskGroupEntry|
                sum + usage[(group.dg_id, 0)].capacity.spec_projected(0),
        ),
    decreases groups.len(),
{
    reveal(Seq::filter);
    reveal(Seq::fold_left);
    if groups.len() > 0 {
        let on_node = |group: DiskGroupEntry| group.node_id == id;
        let on_rack = |group: DiskGroupEntry| group.rack_id == id;
        law_domains_add_up(groups.drop_last(), usage, id);
        let a = groups.drop_last().filter(on_node);
        let b = groups.drop_last().filter(on_rack);
        assert(a.push(groups.last()).drop_last() =~= a);
        assert(b.push(groups.last()).drop_last() =~= b);
    }
}

/// A score is known exactly where some capacity is reported; it then tells the
/// projected use. Of two known ones the one with the smaller share of used space is
/// below.
pub proof fn law_scores_tell_the_share(
    snap: &TopologySnapshot,
    dg_id: u64,
    planned: u64,
    a: CapacityScore,
    b: CapacityScore,
)
    ensures
        ({
            let score = snap.spec_capacity_score(dg_id, planned);
            let reported = snap.usage@.dom().contains((dg_id, 0));
            let capacity = snap.usage@[(dg_id, 0)].capacity;
            &&& score.known <==> reported && capacity.capacity_bytes > 0
            &&& reported ==> score.capacity == capacity.capacity_bytes && score.used
                == capacity.spec_projected(planned)
        }),
        a.known && b.known ==> (a.below(b) <==> a.used * b.capacity < b.used * a.capacity),
        a.below(b) ==> a.known,
        a.known && !b.known ==> a.below(b),
{
}

} // verus!
