//! The current topology snapshot, its updates and its assembly.
use vstd::prelude::*;
use crate::table::{has_key, lemma_row_in_order, put_all, table_from, unique_keys, Row, Table};
use crate::selector::PlacementEntry;
use crate::topology::{
    claimed_row, plan_claims, released_row, spec_capacity_from_summary, InFlightReservation, DiskGroupEntry, DiskGroupUsageSummary,
    DiskGroupValue, DiskLocation, DiskRow, HwStatus, NodeRow, RackRow, TopologySnapshot, UsageRow,
};
use crate::types::DiskId;

verus! {

/// The current topology snapshot.
#[derive(Debug)]
pub struct TopologyCache {
    current: TopologySnapshot,
    next_generation: u64,
}

/// A row as it is published: with the claims that the replaced row of its
/// disk-group held, or as the first of its disk-group.
pub open spec fn published_row(
    row: UsageRow,
    previous: Map<(u64, u64), UsageRow>,
    generation: u64,
) -> UsageRow {
    if previous.dom().contains(row.key()) {
        UsageRow {
            dg_id: row.dg_id,
            capacity: row.capacity.with_in_flight(previous[row.key()].capacity.spec_in_flight()),
            since: previous[row.key()].since,
        }
    } else {
        UsageRow { since: generation, ..row }
    }
}

/// The disks that stand outside a disk-group, in order.
pub open spec fn disks_outside(rows: Seq<DiskRow>, dg_id: u64) -> Seq<DiskRow>
    decreases rows.len(),
{
    if rows.len() == 0 {
        Seq::empty()
    } else {
        let front = disks_outside(rows.drop_last(), dg_id);
        if rows.last().location.disk_group_id != dg_id {
            front.push(rows.last())
        } else {
            front
        }
    }
}

proof fn lemma_disks_outside(rows: Seq<DiskRow>, dg_id: u64, row: DiskRow)
    ensures
        disks_outside(rows, dg_id).contains(row) <==> rows.contains(row)
            && row.location.disk_group_id != dg_id,
    decreases rows.len(),
{
    if rows.len() > 0 {
        let front = rows.drop_last();
        let kept = disks_outside(front, dg_id);
        lemma_disks_outside(front, dg_id, row);
        if rows.contains(row) {
            let k = choose|k: int| 0 <= k < rows.len() && rows[k] == row;
            if k < front.len() {
                assert(front[k] == row);
            }
        }
        if front.contains(row) {
            let k = choose|k: int| 0 <= k < front.len() && front[k] == row;
            assert(rows[k] == row);
        }
        assert(rows[rows.len() - 1] == rows.last());
        if rows.last().location.disk_group_id != dg_id {
            assert forall|x: DiskRow| #[trigger] kept.push(rows.last()).contains(x) <==> kept.contains(
                x,
            ) || x == rows.last() by {
                if kept.contains(x) {
                    let k = choose|k: int| 0 <= k < kept.len() && kept[k] == x;
                    assert(kept.push(rows.last())[k] == x);
                }
                assert(kept.push(rows.last())[kept.len() as int] == rows.last());
            }
        }
    }
}

proof fn lemma_since_kept(before: Table<UsageRow>, after: Table<UsageRow>, next: u64)
    requires
        after.order().len() == before.order().len(),
        forall|i: int|
            0 <= i < after.order().len() ==> (#[trigger] after.order()[i]).since
                == before.order()[i].since && after.order()[i].key() == before.order()[i].key(),
        forall|key: (u64, u64)| #[trigger]
            before@.dom().contains(key) ==> before@[key].since < next,
        unique_keys(before.order()),
    ensures
        forall|key: (u64, u64)| #[trigger] after@.dom().contains(key) ==> after@[key].since < next,
{
    assert(unique_keys(after.order())) by {
        assert forall|i: int, j: int| 0 <= i < j < after.order().len() implies (
        #[trigger] after.order()[i]).key() != (#[trigger] after.order()[j]).key() by {
            assert(before.order()[i].key() != before.order()[j].key());
        }
    }
    assert forall|key: (u64, u64)| #[trigger] after@.dom().contains(key) implies after@[key].since
        < next by {
        let i = lemma_row_in_order(after.order(), key);
        assert(before.order()[i].key() == key);
        assert(before@.dom().contains(key));
        let k = lemma_row_in_order(before.order(), key);
        if k < i {
            assert(before.order()[k].key() != before.order()[i].key());
        } else if i < k {
            assert(before.order()[i].key() != before.order()[k].key());
        }
    }
}

impl TopologyCache {
    /// The current snapshot.
    pub closed spec fn current(&self) -> TopologySnapshot {
        self.current
    }

    /// The generation of the next publication.
    pub closed spec fn next(&self) -> u64 {
        self.next_generation
    }

    /// The next generation is later than the current one and than those since
    /// when the rows are counted.
    pub open spec fn in_order(&self) -> bool {
        &&& self.current().generation < self.next()
        &&& forall|key: (u64, u64)| #[trigger]
            self.current().usage@.dom().contains(key) ==> self.current().usage@[key].since
                < self.next()
    }

    /// `self` was published after `before`: with the next generation, which is a
    /// later one until the counter is full.
    pub open spec fn published_after(&self, before: &TopologyCache) -> bool {
        &&& self.current().generation == before.next()
        &&& self.next() == before.next().wrapping_add(1)
        &&& before.in_order() && before.next() < u64::MAX ==> self.in_order()
            && self.current().generation > before.current().generation
    }

    /// A cache without topology.
    pub fn new() -> (r: Self)
        ensures
            r.current().spec_is_unloaded(),
            r.next() == 1,
            r.in_order(),
    {
        TopologyCache { current: TopologySnapshot::default(), next_generation: 1 }
    }

    /// The current snapshot for placement.
    pub fn snapshot(&self) -> (r: &TopologySnapshot)
        ensures
            *r == self.current(),
    {
        &self.current
    }

    fn bump(&mut self)
        ensures
            final(self).current() == (TopologySnapshot {
                generation: old(self).next(),
                ..old(self).current()
            }),
            final(self).next() == old(self).next().wrapping_add(1),
    {
        self.current.generation = self.next_generation;
        self.next_generation = self.next_generation.wrapping_add(1);
    }

    /// Replace the entire snapshot (periodic refresh). Claims of running
    /// allocations stay with their disk-groups.
    pub fn replace(&mut self, snapshot: TopologySnapshot)
        ensures
            final(self).current() == (TopologySnapshot {
                usage: final(self).current().usage,
                generation: old(self).next(),
                ..snapshot
            }),
            final(self).published_after(old(self)),
            final(self).current().usage.order() == Seq::new(
                snapshot.usage.order().len(),
                |i: int|
                    published_row(
                        snapshot.usage.order()[i],
                        old(self).current().usage@,
                        old(self).next(),
                    ),
            ),
    {
        let mut next: Table<UsageRow> = Table::new();
        let rows = snapshot.usage.rows();
        let mut i: usize = 0;
        while i < rows.len()
            invariant
                i <= rows.len(),
                rows@ == snapshot.usage.order(),
                unique_keys(rows@),
                next.order().len() == i,
                forall|j: int|
                    0 <= j < i ==> #[trigger] next.order()[j] == published_row(
                        rows@[j],
                        self.current().usage@,
                        self.next(),
                    ),
            decreases rows.len() - i,
        {
            let row = rows[i];
            proof {
                if has_key(next.order(), row.key()) {
                    let k = choose|k: int|
                        0 <= k < next.order().len() && (#[trigger] next.order()[k]).key() == row.key();
                    assert(rows@[k].key() != rows@[i as int].key());
                }
            }
            match self.current.usage.get((row.dg_id, 0)) {
                Some(previous) => {
                    let mut capacity = row.capacity;
                    capacity.in_flight = previous.capacity.in_flight;
                    next.put(
                        UsageRow { dg_id: row.dg_id, capacity, since: previous.since },
                    );
                },
                None => {
                    next.put(
                        UsageRow {
                            dg_id: row.dg_id,
                            capacity: row.capacity,
                            since: self.next_generation,
                        },
                    );
                },
            }
            i = i + 1;
        }
        proof {
            assert(unique_keys(next.order())) by {
                assert forall|a: int, b: int| 0 <= a < b < next.order().len() implies (
                #[trigger] next.order()[a]).key() != (#[trigger] next.order()[b]).key() by {
                    assert(rows@[a].key() != rows@[b].key());
                }
            }
            assert(next.order() =~= Seq::new(
                rows@.len(),
                |j: int| published_row(rows@[j], self.current().usage@, self.next()),
            ));
            if self.in_order() {
                assert forall|key: (u64, u64)| #[trigger]
                    next@.dom().contains(key) implies next@[key].since <= self.next() by {
                    let j = lemma_row_in_order(next.order(), key);
                    if self.current().usage@.dom().contains(rows@[j].key()) {
                        assert(self.current().usage@[rows@[j].key()].since < self.next());
                    }
                }
            }
        }
        let mut snapshot = snapshot;
        snapshot.usage = next;
        self.current = snapshot;
        self.bump();
    }

    /// Update a single disk-group entry.
    pub fn update_disk_group(&mut self, entry: DiskGroupEntry)
        ensures
            final(self).current() == (TopologySnapshot {
                disk_groups: final(self).current().disk_groups,
                generation: old(self).next(),
                ..old(self).current()
            }),
            final(self).published_after(old(self)),
            final(self).current().disk_groups@ == old(self).current().disk_groups@.insert(
                (entry.dg_id, 0),
                entry,
            ),
    {
        self.current.disk_groups.put(entry);
        self.bump();
    }

    /// Update one usage observation while retaining its claims.
    pub fn update_disk_group_usage(&mut self, dg_id: u64, summary: &DiskGroupUsageSummary)
        ensures
            final(self).current() == (TopologySnapshot {
                usage: final(self).current().usage,
                generation: old(self).next(),
                ..old(self).current()
            }),
            final(self).published_after(old(self)),
            final(self).current().usage@ == old(self).current().usage@.insert(
                (dg_id, 0),
                published_row(
                    UsageRow { dg_id, capacity: spec_capacity_from_summary(*summary), since: 0 },
                    old(self).current().usage@,
                    old(self).next(),
                ),
            ),
    {
        let mut capacity = super::capacity_from_summary(summary);
        let since: u64 = match self.current.usage.get((dg_id, 0)) {
            Some(previous) => {
                capacity.in_flight = previous.capacity.in_flight;
                previous.since
            },
            None => self.next_generation,
        };
        self.current.usage.put(UsageRow { dg_id, capacity, since });
        self.bump();
    }

    /// Publish one healthy physical disk location for allocation validation.
    pub fn update_disk_location(&mut self, disk_id: DiskId, location: DiskLocation)
        ensures
            final(self).current() == (TopologySnapshot {
                disks: final(self).current().disks,
                generation: old(self).next(),
                ..old(self).current()
            }),
            final(self).published_after(old(self)),
            final(self).current().disks@ == old(self).current().disks@.insert(
                (disk_id.high, disk_id.low),
                (DiskRow { disk_id, location }),
            ),
    {
        self.current.disks.put(DiskRow { disk_id, location });
        self.bump();
    }

    /// Remove a disk-group entry, its usage and its disks.
    pub fn remove_disk_group(&mut self, dg_id: u64)
        ensures
            final(self).current() == (TopologySnapshot {
                disk_groups: final(self).current().disk_groups,
                usage: final(self).current().usage,
                disks: final(self).current().disks,
                generation: old(self).next(),
                ..old(self).current()
            }),
            final(self).published_after(old(self)),
            final(self).current().disk_groups@ == old(self).current().disk_groups@.remove((dg_id, 0)),
            final(self).current().usage@ == old(self).current().usage@.remove((dg_id, 0)),
            final(self).current().disks.order() == disks_outside(
                old(self).current().disks.order(),
                dg_id,
            ),
    {
        let _ = self.current.disk_groups.remove((dg_id, 0));
        let _ = self.current.usage.remove((dg_id, 0));
        let mut kept: Table<DiskRow> = Table::new();
        let rows = self.current.disks.rows();
        let mut i: usize = 0;
        while i < rows.len()
            invariant
                i <= rows.len(),
                unique_keys(rows@),
                kept.order() == disks_outside(rows@.take(i as int), dg_id),
            decreases rows.len() - i,
        {
            let row = rows[i];
            proof {
                let before = rows@.take(i as int);
                assert(rows@.take(i + 1).drop_last() =~= before);
                assert(rows@.take(i + 1).last() == row);
                if has_key(kept.order(), row.key()) {
                    let k = choose|k: int|
                        0 <= k < kept.order().len() && (#[trigger] kept.order()[k]).key() == row.key();
                    lemma_disks_outside(before, dg_id, kept.order()[k]);
                    assert(kept.order().contains(kept.order()[k]));
                    let m = choose|m: int| 0 <= m < before.len() && before[m] == kept.order()[k];
                    assert(rows@[m].key() != rows@[i as int].key());
                }
            }
            if row.location.disk_group_id != dg_id {
                kept.put(row);
            }
            i = i + 1;
        }
        assert(rows@.take(i as int) =~= rows@);
        self.current.disks = kept;
        self.bump();
    }

    /// Update a node's status.
    pub fn update_node_status(&mut self, node: NodeRow)
        ensures
            final(self).current() == (TopologySnapshot {
                nodes: final(self).current().nodes,
                generation: old(self).next(),
                ..old(self).current()
            }),
            final(self).published_after(old(self)),
            final(self).current().nodes@ == old(self).current().nodes@.insert(node.key(), node),
    {
        self.current.nodes.put(node);
        self.bump();
    }

    /// Update a rack's status and node list.
    pub fn update_rack(&mut self, rack: RackRow)
        ensures
            final(self).current() == (TopologySnapshot {
                racks: final(self).current().racks,
                generation: old(self).next(),
                ..old(self).current()
            }),
            final(self).published_after(old(self)),
            final(self).current().racks@ == old(self).current().racks@.insert(rack.key(), rack),
    {
        self.current.racks.put(rack);
        self.bump();
    }

    /// Account for every byte in a selected plan. The claims stay with the
    /// disk-groups through all updates; `release` gives them back when the
    /// allocation attempt ends.
    pub fn reserve_plan(&mut self, entries: &[PlacementEntry], bytes_per_block: u64) -> (r:
        InFlightReservation)
        ensures
            r.claims() == plan_claims(old(self).current().usage.order(), entries@, bytes_per_block),
            final(self).current().usage.order() == Seq::new(
                old(self).current().usage.order().len(),
                |i: int|
                    claimed_row(old(self).current().usage.order()[i], entries@, bytes_per_block),
            ),
            final(self).current() == (TopologySnapshot {
                usage: final(self).current().usage,
                ..old(self).current()
            }),
            final(self).next() == old(self).next(),
            old(self).in_order() ==> final(self).in_order(),
    {
        let rows = self.current.usage.rows();
        assert(unique_keys(rows@));
        let reservation = self.current.reserve_plan(entries, bytes_per_block);
        proof {
            if old(self).in_order() {
                lemma_since_kept(old(self).current().usage, self.current().usage, self.next());
            }
        }
        reservation
    }

    /// Give back the claims of an ended allocation attempt. Those on a disk-group
    /// that was removed meanwhile are gone with it.
    pub fn release(&mut self, reservation: InFlightReservation)
        ensures
            final(self).current().usage.order() == Seq::new(
                old(self).current().usage.order().len(),
                |i: int|
                    released_row(old(self).current().usage.order()[i], reservation.claims()),
            ),
            final(self).current() == (TopologySnapshot {
                usage: final(self).current().usage,
                ..old(self).current()
            }),
            final(self).next() == old(self).next(),
            old(self).in_order() ==> final(self).in_order(),
    {
        let rows = self.current.usage.rows();
        assert(unique_keys(rows@));
        self.current.release(reservation);
        proof {
            if old(self).in_order() {
                lemma_since_kept(old(self).current().usage, self.current().usage, self.next());
            }
        }
    }

    /// Check if the cache is empty (no topology loaded yet).
    pub fn is_empty(&self) -> (r: bool)
        ensures
            r == (self.current().racks.order().len() == 0),
    {
        self.current.is_empty()
    }
}

impl Default for TopologyCache {
    fn default() -> (r: Self)
        ensures
            r.current().spec_is_unloaded(),
            r.next() == 1,
            r.in_order(),
    {
        TopologyCache::new()
    }
}

/// A disk as the hardware inventory lists it.
#[derive(Debug, Clone, Copy, PartialEq, Eq, Structural)]
pub struct DiskRecord {
    pub disk_id: DiskId,
    pub rack_id: u64,
    pub node_id: u64,
    pub disk_group_id: u64,
    pub status: HwStatus,
    pub unit_size_bytes: u32,
}

/// A usage report filed under a disk-group.
#[derive(Debug, Clone, Copy, PartialEq, Eq, Structural)]
pub struct UsageReport {
    pub dg_id: u64,
    pub summary: DiskGroupUsageSummary,
}

/// Position of the first report of a disk-group.
pub open spec fn report_position(reports: Seq<UsageReport>, dg_id: u64) -> Option<int>
    decreases reports.len(),
{
    if reports.len() == 0 {
        None
    } else {
        match report_position(reports.drop_last(), dg_id) {
            Some(i) => Some(i),
            None => if reports.last().dg_id == dg_id {
                Some(reports.len() - 1)
            } else {
                None
            },
        }
    }
}

/// The reports with live ones put over them: a live report takes the place of
/// the first report of its disk-group, or comes behind all.
pub open spec fn merged_reports(
    reports: Seq<UsageReport>,
    live: Seq<DiskGroupUsageSummary>,
) -> Seq<UsageReport>
    decreases live.len(),
{
    if live.len() == 0 {
        reports
    } else {
        let front = merged_reports(reports, live.drop_last());
        let report = UsageReport { dg_id: live.last().disk_group_id, summary: live.last() };
        match report_position(front, report.dg_id) {
            Some(i) => front.update(i, report),
            None => front.push(report),
        }
    }
}

fn find_report(reports: &Vec<UsageReport>, dg_id: u64) -> (r: Option<usize>)
    ensures
        match r {
            Some(i) => report_position(reports@, dg_id) == Some(i as int) && i < reports@.len(),
            None => report_position(reports@, dg_id) is None,
        },
{
    let mut i: usize = 0;
    while i < reports.len()
        invariant
            i <= reports.len(),
            report_position(reports@.take(i as int), dg_id) is None,
        decreases reports.len() - i,
    {
        assert(reports@.take(i + 1).drop_last() =~= reports@.take(i as int));
        if reports[i].dg_id == dg_id {
            proof {
                lemma_report_position_stays(reports@, i + 1, dg_id);
            }
            return Some(i);
        }
        i = i + 1;
    }
    assert(reports@.take(i as int) =~= reports@);
    None
}

proof fn lemma_report_position_stays(reports: Seq<UsageReport>, n: int, dg_id: u64)
    requires
        0 <= n <= reports.len(),
        report_position(reports.take(n), dg_id) is Some,
    ensures
        report_position(reports, dg_id) == report_position(reports.take(n), dg_id),
    decreases reports.len() - n,
{
    if n < reports.len() {
        assert(reports.take(n + 1).drop_last() =~= reports.take(n));
        lemma_report_position_stays(reports, n + 1, dg_id);
    } else {
        assert(reports.take(n) =~= reports);
    }
}

/// Put live usage reports over the stored ones.
pub fn merge_live_usages(reports: &mut Vec<UsageReport>, live: &[DiskGroupUsageSummary])
    ensures
        final(reports)@ == merged_reports(old(reports)@, live@),
{
    let ghost stored = reports@;
    let mut i: usize = 0;
    while i < live.len()
        invariant
            i <= live.len(),
            reports@ == merged_reports(stored, live@.take(i as int)),
        decreases live.len() - i,
    {
        assert(live@.take(i + 1).drop_last() =~= live@.take(i as int));
        let report = UsageReport { dg_id: live[i].disk_group_id, summary: live[i] };
        match find_report(reports, report.dg_id) {
            Some(at) => {
                reports.set(at, report);
            },
            None => {
                reports.push(report);
            },
        }
        i = i + 1;
    }
    assert(live@.take(i as int) =~= live@);
}

/// The disks listed under a disk-group, in order.
pub open spec fn disks_of_group(disks: Seq<DiskRecord>, place: DiskLocation) -> Seq<DiskId>
    decreases disks.len(),
{
    if disks.len() == 0 {
        Seq::empty()
    } else {
        let front = disks_of_group(disks.drop_last(), place);
        let disk = disks.last();
        if disk.rack_id == place.rack_id && disk.node_id == place.node_id && disk.disk_group_id
            == place.disk_group_id {
            front.push(disk.disk_id)
        } else {
            front
        }
    }
}

/// The locations of the disks that are up, in order.
pub open spec fn up_disks(disks: Seq<DiskRecord>) -> Seq<DiskRow>
    decreases disks.len(),
{
    if disks.len() == 0 {
        Seq::empty()
    } else {
        let front = up_disks(disks.drop_last());
        let disk = disks.last();
        if disk.status == HwStatus::Up {
            front.push(
                DiskRow {
                    disk_id: disk.disk_id,
                    location: DiskLocation {
                        rack_id: disk.rack_id,
                        node_id: disk.node_id,
                        disk_group_id: disk.disk_group_id,
                    },
                },
            )
        } else {
            front
        }
    }
}

/// The usage rows of reports whose disk-group exists, in order.
pub open spec fn joined_usage(reports: Seq<UsageReport>, groups: Set<(u64, u64)>) -> Seq<UsageRow>
    decreases reports.len(),
{
    if reports.len() == 0 {
        Seq::empty()
    } else {
        let front = joined_usage(reports.drop_last(), groups);
        let report = reports.last();
        if groups.contains((report.dg_id, 0)) {
            front.push(
                UsageRow {
                    dg_id: report.dg_id,
                    capacity: spec_capacity_from_summary(report.summary),
                    since: 0,
                },
            )
        } else {
            front
        }
    }
}

/// The last of the listed disk-groups with an ID.
pub open spec fn last_group(groups: Seq<DiskGroupEntry>, dg_id: u64) -> Option<DiskGroupEntry>
    decreases groups.len(),
{
    if groups.len() == 0 {
        None
    } else if groups.last().dg_id == dg_id {
        Some(groups.last())
    } else {
        last_group(groups.drop_last(), dg_id)
    }
}

fn collect_disks(disks: &[DiskRecord], group: &DiskGroupEntry) -> (r: Vec<DiskId>)
    ensures
        r@ == disks_of_group(disks@, group.spec_place()),
{
    let mut out: Vec<DiskId> = Vec::new();
    let mut i: usize = 0;
    while i < disks.len()
        invariant
            i <= disks.len(),
            out@ == disks_of_group(disks@.take(i as int), group.spec_place()),
        decreases disks.len() - i,
    {
        assert(disks@.take(i + 1).drop_last() =~= disks@.take(i as int));
        let disk = disks[i];
        if disk.rack_id == group.rack_id && disk.node_id == group.node_id && disk.disk_group_id
            == group.dg_id {
            out.push(disk.disk_id);
        }
        i = i + 1;
    }
    assert(disks@.take(i as int) =~= disks@);
    out
}

/// `table` holds exactly the listed disk-groups, the last one for each ID, each
/// with the disks that the inventory lists under it.
pub open spec fn groups_joined(
    table: Map<(u64, u64), DiskGroupEntry>,
    groups: Seq<DiskGroupEntry>,
    disks: Seq<DiskRecord>,
) -> bool {
    &&& forall|key: (u64, u64)| #[trigger]
        table.dom().contains(key) <==> key.1 == 0 && last_group(groups, key.0) is Some
    &&& forall|key: (u64, u64)| #[trigger]
        table.dom().contains(key) ==> {
            let listed = last_group(groups, key.0)->0;
            &&& table[key].spec_place() == listed.spec_place()
            &&& table[key].value.status == listed.value.status
            &&& table[key].value.disk_ids@ == disks_of_group(disks, listed.spec_place())
        }
}

fn join_groups(groups: Vec<DiskGroupEntry>, disks: &[DiskRecord]) -> (r: Table<DiskGroupEntry>)
    ensures
        groups_joined(r@, groups@, disks@),
{
    let mut table: Table<DiskGroupEntry> = Table::new();
    let ghost all = groups@;
    for group in iter: groups.into_iter()
        invariant
            iter.seq() == all,
            groups_joined(table@, all.take(iter.index() as int), disks@),
    {
        proof {
            assert(all.take(iter.index() + 1).drop_last() =~= all.take(iter.index() as int));
            assert(all.take(iter.index() + 1).last() == group);
        }
        let disk_ids = collect_disks(disks, &group);
        let joined = DiskGroupEntry {
            rack_id: group.rack_id,
            node_id: group.node_id,
            dg_id: group.dg_id,
            value: DiskGroupValue { status: group.value.status, disk_ids },
        };
        table.put(joined);
    }
    assert(all.take(all.len() as int) =~= all);
    table
}

/// Assemble a snapshot from the inventory and the usage reports. An inventory
/// without racks, nodes and disk-groups gives none: the caller keeps the
/// previous snapshot.
pub fn assemble_snapshot(
    racks: Vec<RackRow>,
    nodes: Vec<NodeRow>,
    groups: Vec<DiskGroupEntry>,
    disks: &[DiskRecord],
    reports: &[UsageReport],
) -> (r: Option<TopologySnapshot>)
    ensures
        r is None <==> racks@.len() == 0 && nodes@.len() == 0 && groups@.len() == 0,
        r matches Some(s) ==> {
            &&& s.racks@ == put_all(racks@)
            &&& s.nodes@ == put_all(nodes@)
            &&& groups_joined(s.disk_groups@, groups@, disks@)
            &&& s.disks@ == put_all(up_disks(disks@))
            &&& s.usage@ == put_all(joined_usage(reports@, s.disk_groups@.dom()))
            &&& s.generation == 0
            &&& s.unit_size_bytes == (if disks@.len() == 0 {
                0
            } else {
                disks@[0].unit_size_bytes
            })
        },
{
    if racks.len() == 0 && nodes.len() == 0 && groups.len() == 0 {
        return None;
    }
    let rack_table = table_from(racks);
    let node_table = table_from(nodes);
    let group_table = join_groups(groups, disks);
    let mut up: Vec<DiskRow> = Vec::new();
    let mut i: usize = 0;
    while i < disks.len()
        invariant
            i <= disks.len(),
            up@ == up_disks(disks@.take(i as int)),
        decreases disks.len() - i,
    {
        assert(disks@.take(i + 1).drop_last() =~= disks@.take(i as int));
        let disk = disks[i];
        if disk.status == HwStatus::Up {
            up.push(
                DiskRow {
                    disk_id: disk.disk_id,
                    location: DiskLocation {
                        rack_id: disk.rack_id,
                        node_id: disk.node_id,
                        disk_group_id: disk.disk_group_id,
                    },
                },
            );
        }
        i = i + 1;
    }
    assert(disks@.take(i as int) =~= disks@);
    let mut usage: Vec<UsageRow> = Vec::new();
    let mut k: usize = 0;
    while k < reports.len()
        invariant
            k <= reports.len(),
            usage@ == joined_usage(reports@.take(k as int), group_table@.dom()),
        decreases reports.len() - k,
    {
        assert(reports@.take(k + 1).drop_last() =~= reports@.take(k as int));
        let report = reports[k];
        if group_table.get((report.dg_id, 0)).is_some() {
            usage.push(
                UsageRow {
                    dg_id: report.dg_id,
                    capacity: super::capacity_from_summary(&report.summary),
                    since: 0,
                },
            );
        }
        k = k + 1;
    }
    assert(reports@.take(k as int) =~= reports@);
    let unit_size_bytes: u32 = if disks.len() == 0 {
        0
    } else {
        disks[0].unit_size_bytes
    };
    Some(
        TopologySnapshot {
            racks: rack_table,
            nodes: node_table,
            disk_groups: group_table,
            disks: table_from(up),
            usage: table_from(usage),
            generation: 0,
            unit_size_bytes,
        },
    )
}

} // verus!
