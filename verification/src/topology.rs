//! Point-in-time view of the cluster: racks, nodes, disk-groups, disks and
//! their utilization.
use vstd::prelude::*;
use crate::arith::{clip_u64, sat_add_u64, sat_mul_u64};
use crate::selector::PlacementEntry;
use crate::table::{has_key, unique_keys, Row, Table};
use crate::types::DiskId;

pub mod cache;
pub mod capacity;
pub mod effects;

pub use crate::topology::cache::TopologyCache;
pub use crate::topology::capacity::CapacityScore;

verus! {

/// Store of the system group.
pub const G0_STORE: u64 = 0;

/// Group of the system group.
pub const G0_GROUP: u64 = 0;

/// Reported hardware status.
#[derive(Debug, Clone, Copy, PartialEq, Eq, Structural)]
pub enum HwStatus {
    Up,
    Other(i32),
}

/// A rack with its nodes.
#[derive(Debug)]
pub struct RackRow {
    pub rack_id: u64,
    pub status: HwStatus,
    pub node_ids: Vec<u64>,
}

impl Row for RackRow {
    open spec fn key(self) -> (u64, u64) {
        (self.rack_id, 0)
    }

    fn row_key(&self) -> (r: (u64, u64)) {
        (self.rack_id, 0)
    }
}

/// A node with its disk-groups.
#[derive(Debug)]
pub struct NodeRow {
    pub rack_id: u64,
    pub node_id: u64,
    pub status: HwStatus,
    pub dg_ids: Vec<u64>,
}

impl Row for NodeRow {
    open spec fn key(self) -> (u64, u64) {
        (self.rack_id, self.node_id)
    }

    fn row_key(&self) -> (r: (u64, u64)) {
        (self.rack_id, self.node_id)
    }
}

/// Status and disks of a disk-group.
#[derive(Debug)]
pub struct DiskGroupValue {
    pub status: HwStatus,
    pub disk_ids: Vec<DiskId>,
}

/// A disk-group and where it stands.
#[derive(Debug)]
pub struct DiskGroupEntry {
    pub rack_id: u64,
    pub node_id: u64,
    pub dg_id: u64,
    pub value: DiskGroupValue,
}

impl Row for DiskGroupEntry {
    open spec fn key(self) -> (u64, u64) {
        (self.dg_id, 0)
    }

    fn row_key(&self) -> (r: (u64, u64)) {
        (self.dg_id, 0)
    }
}

impl DiskGroupEntry {
    /// The identity of the disk-group without its disks.
    pub open spec fn spec_place(self) -> DiskLocation {
        DiskLocation {
            rack_id: self.rack_id,
            node_id: self.node_id,
            disk_group_id: self.dg_id,
        }
    }

    /// The identity of the disk-group without its disks.
    pub fn place(&self) -> (r: DiskLocation)
        ensures
            r == self.spec_place(),
    {
        DiskLocation { rack_id: self.rack_id, node_id: self.node_id, disk_group_id: self.dg_id }
    }
}

/// Physical failure-domain location.
#[derive(Debug, Clone, Copy, PartialEq, Eq, Structural)]
pub struct DiskLocation {
    pub rack_id: u64,
    pub node_id: u64,
    pub disk_group_id: u64,
}

/// A disk and where it stands.
#[derive(Debug, Clone, Copy, PartialEq, Eq, Structural)]
pub struct DiskRow {
    pub disk_id: DiskId,
    pub location: DiskLocation,
}

impl Row for DiskRow {
    open spec fn key(self) -> (u64, u64) {
        (self.disk_id.high, self.disk_id.low)
    }

    fn row_key(&self) -> (r: (u64, u64)) {
        (self.disk_id.high, self.disk_id.low)
    }
}

/// Reported space of a disk-group.
#[derive(Debug, Clone, Copy, PartialEq, Eq, Structural)]
pub struct DiskGroupUsageSummary {
    pub disk_group_id: u64,
    pub allocatable_disk_count: u32,
    pub allocatable_capacity_bytes: u64,
    pub allocatable_used_bytes: u64,
    pub allocatable_free_bytes: u64,
    pub sampled_at_ms: u64,
}

/// Space of a disk-group, with what running allocations still claim.
#[derive(Debug, Clone, Copy, PartialEq, Eq, Structural)]
pub struct DiskGroupCapacity {
    pub allocatable_disk_count: u32,
    pub capacity_bytes: u64,
    pub used_bytes: u64,
    pub free_bytes: u64,
    pub sampled_at_ms: u64,
    pub in_flight: u64,
}

impl DiskGroupCapacity {
    /// Bytes claimed by running allocations.
    pub open spec fn spec_in_flight(self) -> u64 {
        self.in_flight
    }

    /// The same observation with other claims.
    pub open spec fn with_in_flight(self, bytes: u64) -> DiskGroupCapacity {
        DiskGroupCapacity { in_flight: bytes, ..self }
    }

    /// Bytes claimed by running allocations.
    pub fn in_flight_bytes(&self) -> (r: u64)
        ensures
            r == self.spec_in_flight(),
    {
        self.in_flight
    }

    /// Used bytes once everything claimed and planned is written.
    pub open spec fn spec_projected(self, planned_bytes: u64) -> u64 {
        clip_u64(self.used_bytes + self.spec_in_flight() + planned_bytes)
    }

    /// Used bytes once everything claimed and planned is written.
    pub fn projected_bytes(&self, planned_bytes: u64) -> (r: u64)
        ensures
            r == self.spec_projected(planned_bytes),
    {
        sat_add_u64(sat_add_u64(self.used_bytes, self.in_flight_bytes()), planned_bytes)
    }
}

/// Other claims leave the observation as it is.
pub proof fn lemma_with_in_flight(capacity: DiskGroupCapacity, a: u64, b: u64)
    ensures
        capacity.with_in_flight(a).spec_in_flight() == a,
        capacity.with_in_flight(a).with_in_flight(b) == capacity.with_in_flight(b),
        capacity.with_in_flight(capacity.spec_in_flight()) == capacity,
{
}

/// The space of one disk-group.
#[derive(Debug, Clone, Copy, PartialEq, Eq, Structural)]
pub struct UsageRow {
    pub dg_id: u64,
    pub capacity: DiskGroupCapacity,
    /// Generation with which the disk-group was first published, since when its
    /// claims are counted.
    pub since: u64,
}

impl Row for UsageRow {
    open spec fn key(self) -> (u64, u64) {
        (self.dg_id, 0)
    }

    fn row_key(&self) -> (r: (u64, u64)) {
        (self.dg_id, 0)
    }
}

/// The space that a report gives, with nothing claimed.
pub open spec fn spec_capacity_from_summary(summary: DiskGroupUsageSummary) -> DiskGroupCapacity {
    zero_capacity().with_observation(summary)
}

/// Space of nothing.
pub open spec fn zero_capacity() -> DiskGroupCapacity {
    DiskGroupCapacity {
        allocatable_disk_count: 0,
        capacity_bytes: 0,
        used_bytes: 0,
        free_bytes: 0,
        sampled_at_ms: 0,
        in_flight: 0,
    }
}

impl DiskGroupCapacity {
    /// The claims of `self` with the numbers of a report.
    pub open spec fn with_observation(self, summary: DiskGroupUsageSummary) -> DiskGroupCapacity {
        DiskGroupCapacity {
            allocatable_disk_count: summary.allocatable_disk_count,
            capacity_bytes: summary.allocatable_capacity_bytes,
            used_bytes: summary.allocatable_used_bytes,
            free_bytes: summary.allocatable_free_bytes,
            sampled_at_ms: summary.sampled_at_ms,
            ..self
        }
    }
}

pub(crate) fn capacity_from_summary(summary: &DiskGroupUsageSummary) -> (r: DiskGroupCapacity)
    ensures
        r == spec_capacity_from_summary(*summary),
{
    DiskGroupCapacity {
        allocatable_disk_count: summary.allocatable_disk_count,
        capacity_bytes: summary.allocatable_capacity_bytes,
        used_bytes: summary.allocatable_used_bytes,
        free_bytes: summary.allocatable_free_bytes,
        sampled_at_ms: summary.sampled_at_ms,
        in_flight: 0,
    }
}

/// Bytes claimed on one row of a disk-group.
#[derive(Debug, Clone, Copy, PartialEq, Eq, Structural)]
pub struct Claim {
    pub dg_id: u64,
    pub since: u64,
    pub bytes: u64,
}

/// Bytes claimed for one allocation attempt, per disk-group.
#[derive(Debug)]
pub struct InFlightReservation {
    counters: Vec<Claim>,
}

impl InFlightReservation {
    /// The claims.
    pub closed spec fn claims(&self) -> Seq<Claim> {
        self.counters@
    }
}

/// Point-in-time topology snapshot.
#[derive(Debug)]
pub struct TopologySnapshot {
    pub racks: Table<RackRow>,
    pub nodes: Table<NodeRow>,
    pub disk_groups: Table<DiskGroupEntry>,
    /// Locations of disks that are up.
    pub disks: Table<DiskRow>,
    /// Capacity observations joined to live disk-group membership.
    pub usage: Table<UsageRow>,
    /// Publication generation.
    pub generation: u64,
    /// Unit size in bytes; 0 if not yet known.
    pub unit_size_bytes: u32,
}

/// The disk-group, its node and its rack are all up.
pub open spec fn group_is_healthy(
    racks: Map<(u64, u64), RackRow>,
    nodes: Map<(u64, u64), NodeRow>,
    group: DiskGroupEntry,
) -> bool {
    &&& group.value.status == HwStatus::Up
    &&& nodes.dom().contains((group.rack_id, group.node_id))
    &&& nodes[(group.rack_id, group.node_id)].status == HwStatus::Up
    &&& racks.dom().contains((group.rack_id, 0))
    &&& racks[(group.rack_id, 0)].status == HwStatus::Up
}

/// The healthy ones of a run of disk-groups, in order.
pub open spec fn healthy_of(
    racks: Map<(u64, u64), RackRow>,
    nodes: Map<(u64, u64), NodeRow>,
    groups: Seq<DiskGroupEntry>,
) -> Seq<DiskGroupEntry>
    decreases groups.len(),
{
    if groups.len() == 0 {
        Seq::empty()
    } else {
        let front = healthy_of(racks, nodes, groups.drop_last());
        if group_is_healthy(racks, nodes, groups.last()) {
            front.push(groups.last())
        } else {
            front
        }
    }
}

proof fn lemma_healthy_unique(
    racks: Map<(u64, u64), RackRow>,
    nodes: Map<(u64, u64), NodeRow>,
    groups: Seq<DiskGroupEntry>,
)
    requires
        unique_keys(groups),
    ensures
        unique_keys(healthy_of(racks, nodes, groups)),
        forall|i: int|
            0 <= i < healthy_of(racks, nodes, groups).len() ==> groups.contains(
                #[trigger] healthy_of(racks, nodes, groups)[i],
            ),
    decreases groups.len(),
{
    if groups.len() > 0 {
        let front = groups.drop_last();
        assert forall|i: int, j: int| 0 <= i < j < front.len() implies (#[trigger] front[i]).key() != (
        #[trigger] front[j]).key() by {
            assert(groups[i].key() != groups[j].key());
        }
        lemma_healthy_unique(racks, nodes, front);
        let before = healthy_of(racks, nodes, front);
        let all = healthy_of(racks, nodes, groups);
        assert forall|i: int| 0 <= i < all.len() implies groups.contains(#[trigger] all[i]) by {
            if i < before.len() {
                assert(front.contains(before[i]));
                let k = choose|k: int| 0 <= k < front.len() && front[k] == before[i];
                assert(groups[k] == all[i]);
            } else {
                assert(groups[groups.len() - 1] == all[i]);
            }
        }
        assert forall|i: int, j: int| 0 <= i < j < all.len() implies (#[trigger] all[i]).key() != (
        #[trigger] all[j]).key() by {
            assert(all[i] == before[i]);
            if j < before.len() {
                assert(before[i].key() != before[j].key());
            } else {
                assert(front.contains(before[i]));
                let k = choose|k: int| 0 <= k < front.len() && front[k] == before[i];
                assert(groups[k].key() != groups[groups.len() - 1].key());
            }
        }
    }
}

/// A failure domain whose disk-groups are taken together.
#[derive(Debug, Clone, Copy, PartialEq, Eq, Structural)]
pub enum Domain {
    Node(u64),
    Rack(u64),
}

impl Domain {
    /// The disk-group stands in the domain.
    pub open spec fn holds(self, group: DiskGroupEntry) -> bool {
        match self {
            Domain::Node(id) => group.node_id == id,
            Domain::Rack(id) => group.rack_id == id,
        }
    }
}

/// Every disk-group of the domain reports some capacity.
pub open spec fn domain_is_known(
    groups: Seq<DiskGroupEntry>,
    usage: Map<(u64, u64), UsageRow>,
    domain: Domain,
) -> bool {
    forall|i: int|
        0 <= i < groups.len() && domain.holds(#[trigger] groups[i]) ==> usage.dom().contains(
            (groups[i].dg_id, 0),
        ) && usage[(groups[i].dg_id, 0)].capacity.capacity_bytes > 0
}

/// The domain has a disk-group.
pub open spec fn domain_is_populated(groups: Seq<DiskGroupEntry>, domain: Domain) -> bool {
    exists|i: int| 0 <= i < groups.len() && domain.holds(#[trigger] groups[i])
}

/// Projected use of the domain's disk-groups together.
pub open spec fn domain_used(
    groups: Seq<DiskGroupEntry>,
    usage: Map<(u64, u64), UsageRow>,
    domain: Domain,
) -> int
    decreases groups.len(),
{
    if groups.len() == 0 {
        0
    } else {
        domain_used(groups.drop_last(), usage, domain) + if domain.holds(groups.last()) {
            usage[(groups.last().dg_id, 0)].capacity.spec_projected(0) as int
        } else {
            0
        }
    }
}

/// Capacity of the domain's disk-groups together.
pub open spec fn domain_capacity(
    groups: Seq<DiskGroupEntry>,
    usage: Map<(u64, u64), UsageRow>,
    domain: Domain,
) -> int
    decreases groups.len(),
{
    if groups.len() == 0 {
        0
    } else {
        domain_capacity(groups.drop_last(), usage, domain) + if domain.holds(groups.last()) {
            usage[(groups.last().dg_id, 0)].capacity.capacity_bytes as int
        } else {
            0
        }
    }
}

proof fn lemma_domain_sums_nonnegative(
    groups: Seq<DiskGroupEntry>,
    usage: Map<(u64, u64), UsageRow>,
    domain: Domain,
)
    ensures
        domain_used(groups, usage, domain) >= 0,
        domain_capacity(groups, usage, domain) >= 0,
    decreases groups.len(),
{
    if groups.len() > 0 {
        lemma_domain_sums_nonnegative(groups.drop_last(), usage, domain);
    }
}

/// Bytes that the entries place on a disk-group.
pub open spec fn planned_bytes(entries: Seq<PlacementEntry>, bytes_per_block: u64, dg_id: u64) -> int
    decreases entries.len(),
{
    if entries.len() == 0 {
        0
    } else {
        planned_bytes(entries.drop_last(), bytes_per_block, dg_id) + if entries.last().disk_group_id
            == dg_id {
            bytes_per_block * entries.last().block_count
        } else {
            0
        }
    }
}

/// Some entry places blocks on the disk-group.
pub open spec fn is_planned(entries: Seq<PlacementEntry>, dg_id: u64) -> bool {
    exists|i: int| 0 <= i < entries.len() && (#[trigger] entries[i]).disk_group_id == dg_id
}

proof fn lemma_planned_nonnegative(entries: Seq<PlacementEntry>, bytes_per_block: u64, dg_id: u64)
    ensures
        planned_bytes(entries, bytes_per_block, dg_id) >= 0,
    decreases entries.len(),
{
    if entries.len() > 0 {
        lemma_planned_nonnegative(entries.drop_last(), bytes_per_block, dg_id);
        let count = entries.last().block_count;
        assert(bytes_per_block * count >= 0) by (nonlinear_arith)
            requires
                bytes_per_block >= 0,
                count >= 0,
        ;
    }
}

/// The row of a disk-group once the plan is claimed.
pub open spec fn claimed_row(
    row: UsageRow,
    entries: Seq<PlacementEntry>,
    bytes_per_block: u64,
) -> UsageRow {
    if is_planned(entries, row.dg_id) {
        UsageRow {
            capacity: row.capacity.with_in_flight(
                row.capacity.spec_in_flight().wrapping_add(
                    clip_u64(planned_bytes(entries, bytes_per_block, row.dg_id)),
                ),
            ),
            ..row
        }
    } else {
        row
    }
}

/// The claims of a plan on the rows that it touches, in row order.
pub open spec fn plan_claims(
    rows: Seq<UsageRow>,
    entries: Seq<PlacementEntry>,
    bytes_per_block: u64,
) -> Seq<Claim>
    decreases rows.len(),
{
    if rows.len() == 0 {
        Seq::empty()
    } else {
        let front = plan_claims(rows.drop_last(), entries, bytes_per_block);
        if is_planned(entries, rows.last().dg_id) {
            front.push(
                Claim {
                    dg_id: rows.last().dg_id,
                    since: rows.last().since,
                    bytes: clip_u64(planned_bytes(entries, bytes_per_block, rows.last().dg_id)),
                },
            )
        } else {
            front
        }
    }
}

/// The bytes that the first claim on the row holds.
pub open spec fn claim_on(claims: Seq<Claim>, dg_id: u64, since: u64) -> Option<u64>
    decreases claims.len(),
{
    if claims.len() == 0 {
        None
    } else if claims[0].dg_id == dg_id && claims[0].since == since {
        Some(claims[0].bytes)
    } else {
        claim_on(claims.skip(1), dg_id, since)
    }
}

/// The row of a disk-group once the claims are given back. Claims on a row that
/// was removed since are not taken from the one that came in its place.
pub open spec fn released_row(row: UsageRow, claims: Seq<Claim>) -> UsageRow {
    match claim_on(claims, row.dg_id, row.since) {
        Some(bytes) => UsageRow {
            capacity: row.capacity.with_in_flight(
                row.capacity.spec_in_flight().wrapping_sub(bytes),
            ),
            ..row
        },
        None => row,
    }
}

proof fn lemma_claim_on_push(claims: Seq<Claim>, claim: Claim, dg_id: u64, since: u64)
    ensures
        claim_on(claims.push(claim), dg_id, since) == (match claim_on(claims, dg_id, since) {
            Some(bytes) => Some(bytes),
            None => if claim.dg_id == dg_id && claim.since == since {
                Some(claim.bytes)
            } else {
                None
            },
        }),
    decreases claims.len(),
{
    let next = claims.push(claim);
    if claims.len() == 0 {
        assert(next.skip(1) =~= Seq::<Claim>::empty());
        assert(claim_on(next.skip(1), dg_id, since) is None);
    } else {
        lemma_claim_on_push(claims.skip(1), claim, dg_id, since);
        assert(next.skip(1) =~= claims.skip(1).push(claim));
    }
}

spec fn has_row(rows: Seq<UsageRow>, dg_id: u64, since: u64) -> bool {
    exists|i: int| 0 <= i < rows.len() && (#[trigger] rows[i]).dg_id == dg_id && rows[i].since == since
}

proof fn lemma_claims_of_plan(
    rows: Seq<UsageRow>,
    entries: Seq<PlacementEntry>,
    bytes_per_block: u64,
    dg_id: u64,
    since: u64,
)
    ensures
        claim_on(plan_claims(rows, entries, bytes_per_block), dg_id, since) == (if has_row(
            rows,
            dg_id,
            since,
        ) && is_planned(entries, dg_id) {
            Some(clip_u64(planned_bytes(entries, bytes_per_block, dg_id)))
        } else {
            None::<u64>
        }),
    decreases rows.len(),
{
    if rows.len() > 0 {
        let front = rows.drop_last();
        lemma_claims_of_plan(front, entries, bytes_per_block, dg_id, since);
        let claims = plan_claims(front, entries, bytes_per_block);
        let last = rows[rows.len() - 1];
        assert(last == rows.last());
        if is_planned(entries, last.dg_id) {
            lemma_claim_on_push(
                claims,
                Claim {
                    dg_id: last.dg_id,
                    since: last.since,
                    bytes: clip_u64(planned_bytes(entries, bytes_per_block, last.dg_id)),
                },
                dg_id,
                since,
            );
        }
        if has_row(front, dg_id, since) {
            let k = choose|k: int|
                0 <= k < front.len() && (#[trigger] front[k]).dg_id == dg_id && front[k].since
                    == since;
            assert(rows[k] == front[k]);
        }
        if has_row(rows, dg_id, since) {
            let k = choose|k: int|
                0 <= k < rows.len() && (#[trigger] rows[k]).dg_id == dg_id && rows[k].since == since;
            if k < front.len() {
                assert(front[k] == rows[k]);
            }
        }
    }
}

/// Giving back what a plan claimed restores the claims of every row, also where
/// the row has a newer observation by then.
pub proof fn law_release_undoes_reserve(
    rows: Seq<UsageRow>,
    entries: Seq<PlacementEntry>,
    bytes_per_block: u64,
    i: int,
    later: UsageRow,
)
    requires
        0 <= i < rows.len(),
        later.dg_id == rows[i].dg_id,
        later.since == rows[i].since,
        later.capacity.spec_in_flight() == claimed_row(
            rows[i],
            entries,
            bytes_per_block,
        ).capacity.spec_in_flight(),
    ensures
        released_row(later, plan_claims(rows, entries, bytes_per_block)) == (UsageRow {
            capacity: later.capacity.with_in_flight(rows[i].capacity.spec_in_flight()),
            ..later
        }),
{
    let row = rows[i];
    lemma_claims_of_plan(rows, entries, bytes_per_block, row.dg_id, row.since);
    assert(has_row(rows, row.dg_id, row.since));
    let before = row.capacity.spec_in_flight();
    if is_planned(entries, row.dg_id) {
        let bytes = clip_u64(planned_bytes(entries, bytes_per_block, row.dg_id));
        let claimed = before.wrapping_add(bytes);
        assert(claimed.wrapping_sub(bytes) == before);
    } else {
        lemma_with_in_flight(later.capacity, before, before);
    }
}

/// A row that was published after a plan was claimed keeps its own claims when
/// those of the plan are given back.
pub proof fn law_release_spares_newer_rows(
    rows: Seq<UsageRow>,
    entries: Seq<PlacementEntry>,
    bytes_per_block: u64,
    newer: UsageRow,
)
    requires
        forall|i: int| 0 <= i < rows.len() ==> (#[trigger] rows[i]).since < newer.since,
    ensures
        released_row(newer, plan_claims(rows, entries, bytes_per_block)) == newer,
{
    lemma_claims_of_plan(rows, entries, bytes_per_block, newer.dg_id, newer.since);
}

impl TopologySnapshot {
    /// A snapshot of an unknown cluster.
    pub open spec fn spec_is_unloaded(self) -> bool {
        &&& self.racks.order() == Seq::<RackRow>::empty()
        &&& self.nodes.order() == Seq::<NodeRow>::empty()
        &&& self.disk_groups.order() == Seq::<DiskGroupEntry>::empty()
        &&& self.disks.order() == Seq::<DiskRow>::empty()
        &&& self.usage.order() == Seq::<UsageRow>::empty()
        &&& self.generation == 0
        &&& self.unit_size_bytes == 0
    }

    /// The healthy disk-groups, in order.
    pub open spec fn healthy(&self) -> Seq<DiskGroupEntry> {
        healthy_of(self.racks@, self.nodes@, self.disk_groups.order())
    }

    /// All disk-groups with healthy status (rack, node and disk-group all up).
    pub fn healthy_disk_groups(&self) -> (r: Vec<&DiskGroupEntry>)
        ensures
            r@.len() == self.healthy().len(),
            forall|i: int| 0 <= i < r@.len() ==> *(#[trigger] r@[i]) == self.healthy()[i],
            unique_keys(self.healthy()),
    {
        let mut out: Vec<&DiskGroupEntry> = Vec::new();
        let groups = self.disk_groups.rows();
        let mut i: usize = 0;
        while i < groups.len()
            invariant
                i <= groups.len(),
                groups@ == self.disk_groups.order(),
                out@.len() == healthy_of(self.racks@, self.nodes@, groups@.take(i as int)).len(),
                forall|j: int|
                    0 <= j < out@.len() ==> *(#[trigger] out@[j]) == healthy_of(
                        self.racks@,
                        self.nodes@,
                        groups@.take(i as int),
                    )[j],
            decreases groups.len() - i,
        {
            let group = &groups[i];
            proof {
                assert(groups@.take(i + 1).drop_last() =~= groups@.take(i as int));
                assert(groups@.take(i + 1).last() == *group);
            }
            if self.is_healthy(group) {
                out.push(group);
            }
            i = i + 1;
        }
        assert(groups@.take(i as int) =~= groups@);
        proof {
            lemma_healthy_unique(self.racks@, self.nodes@, groups@);
        }
        out
    }

    /// Whether a disk-group, its node and its rack are all up.
    pub fn is_healthy(&self, group: &DiskGroupEntry) -> (r: bool)
        ensures
            r == group_is_healthy(self.racks@, self.nodes@, *group),
    {
        if group.value.status != HwStatus::Up {
            return false;
        }
        let node_up = match self.nodes.get((group.rack_id, group.node_id)) {
            Some(node) => node.status == HwStatus::Up,
            None => false,
        };
        let rack_up = match self.racks.get((group.rack_id, 0)) {
            Some(rack) => rack.status == HwStatus::Up,
            None => false,
        };
        node_up && rack_up
    }

    /// All disk-group entries, for dependent route caches.
    pub fn disk_groups(&self) -> (r: &Vec<DiskGroupEntry>)
        ensures
            r@ == self.disk_groups.order(),
            unique_keys(r@),
    {
        self.disk_groups.rows()
    }

    /// Get a disk-group entry by ID.
    pub fn disk_group(&self, dg_id: u64) -> (r: Option<&DiskGroupEntry>)
        ensures
            match r {
                Some(group) => self.disk_groups@.dom().contains((dg_id, 0))
                    && self.disk_groups@[(dg_id, 0)] == *group && group.dg_id == dg_id,
                None => !self.disk_groups@.dom().contains((dg_id, 0)),
            },
    {
        self.disk_groups.get((dg_id, 0))
    }

    /// Where a disk stands, as far as it is known to be up.
    pub open spec fn spec_disk_location(&self, disk_id: DiskId) -> Option<DiskLocation> {
        if self.disks@.dom().contains((disk_id.high, disk_id.low)) {
            Some(self.disks@[(disk_id.high, disk_id.low)].location)
        } else {
            None
        }
    }

    /// Where a disk stands, as far as it is known to be up.
    pub fn disk_location(&self, disk_id: DiskId) -> (r: Option<DiskLocation>)
        ensures
            r == self.spec_disk_location(disk_id),
    {
        match self.disks.get((disk_id.high, disk_id.low)) {
            Some(row) => Some(row.location),
            None => None,
        }
    }

    /// The space of a disk-group.
    pub open spec fn spec_capacity(&self, dg_id: u64) -> Option<DiskGroupCapacity> {
        if self.usage@.dom().contains((dg_id, 0)) {
            Some(self.usage@[(dg_id, 0)].capacity)
        } else {
            None
        }
    }

    /// The space of a disk-group.
    pub fn disk_group_capacity(&self, dg_id: u64) -> (r: Option<DiskGroupCapacity>)
        ensures
            r == self.spec_capacity(dg_id),
    {
        match self.usage.get((dg_id, 0)) {
            Some(row) => Some(row.capacity),
            None => None,
        }
    }

    /// Publication generation.
    pub fn generation(&self) -> (r: u64)
        ensures
            r == self.generation,
    {
        self.generation
    }

    /// Projected utilization of a disk-group.
    pub fn capacity_score(&self, dg_id: u64, planned_bytes: u64) -> (r: CapacityScore)
        ensures
            r.well_formed(),
            r == self.spec_capacity_score(dg_id, planned_bytes),
    {
        match self.disk_group_capacity(dg_id) {
            Some(capacity) => CapacityScore {
                used: capacity.projected_bytes(planned_bytes),
                capacity: capacity.capacity_bytes,
                known: capacity.capacity_bytes > 0,
            },
            None => CapacityScore { used: 0, capacity: 0, known: false },
        }
    }

    /// Projected utilization of a disk-group: known exactly where it reports
    /// some capacity.
    pub open spec fn spec_capacity_score(&self, dg_id: u64, planned_bytes: u64) -> CapacityScore {
        match self.spec_capacity(dg_id) {
            Some(capacity) => CapacityScore {
                used: capacity.spec_projected(planned_bytes),
                capacity: capacity.capacity_bytes,
                known: capacity.capacity_bytes > 0,
            },
            None => CapacityScore { used: 0, capacity: 0, known: false },
        }
    }

    /// Projected utilization of a node.
    pub fn node_capacity_score(&self, node_id: u64, planned_bytes: u64) -> (r: CapacityScore)
        ensures
            self.is_domain_score(Domain::Node(node_id), planned_bytes, r),
    {
        self.domain_capacity_score(Domain::Node(node_id), planned_bytes)
    }

    /// Projected utilization of a rack.
    pub fn rack_capacity_score(&self, rack_id: u64, planned_bytes: u64) -> (r: CapacityScore)
        ensures
            self.is_domain_score(Domain::Rack(rack_id), planned_bytes, r),
    {
        self.domain_capacity_score(Domain::Rack(rack_id), planned_bytes)
    }

    /// The score of a domain: known exactly where it has a disk-group and each
    /// of them reports some capacity; then the sums over them, the planned
    /// bytes added once.
    pub open spec fn is_domain_score(
        &self,
        domain: Domain,
        planned_bytes: u64,
        score: CapacityScore,
    ) -> bool {
        let groups = self.disk_groups.order();
        &&& score.is_known() == (domain_is_known(groups, self.usage@, domain)
            && domain_is_populated(groups, domain))
        &&& domain_is_known(groups, self.usage@, domain) ==> score.used_bytes() == clip_u64(
            domain_used(groups, self.usage@, domain) + planned_bytes,
        ) && score.capacity_bytes() == clip_u64(domain_capacity(groups, self.usage@, domain))
        &&& !domain_is_known(groups, self.usage@, domain) ==> score.used_bytes() == 0
            && score.capacity_bytes() == 0
    }

    fn domain_capacity_score(&self, domain: Domain, planned_bytes: u64) -> (r: CapacityScore)
        ensures
            self.is_domain_score(domain, planned_bytes, r),
    {
        let groups = self.disk_groups.rows();
        let mut used: u64 = 0;
        let mut capacity_bytes: u64 = 0;
        let mut found = false;
        let mut i: usize = 0;
        while i < groups.len()
            invariant
                i <= groups.len(),
                groups@ == self.disk_groups.order(),
                domain_is_known(groups@.take(i as int), self.usage@, domain),
                found == domain_is_populated(groups@.take(i as int), domain),
                used == clip_u64(domain_used(groups@.take(i as int), self.usage@, domain)),
                capacity_bytes == clip_u64(
                    domain_capacity(groups@.take(i as int), self.usage@, domain),
                ),
            decreases groups.len() - i,
        {
            let group = &groups[i];
            let ghost before = groups@.take(i as int);
            let ghost after = groups@.take(i + 1);
            proof {
                assert(after.drop_last() =~= before);
                assert(after.last() == *group);
                assert(groups@[i as int] == *group);
                lemma_domain_sums_nonnegative(before, self.usage@, domain);
                assert forall|j: int| 0 <= j < i implies after[j] == before[j] by {}
            }
            let inside = match domain {
                Domain::Node(id) => group.node_id == id,
                Domain::Rack(id) => group.rack_id == id,
            };
            if inside {
                match self.disk_group_capacity(group.dg_id) {
                    Some(capacity) => {
                        if capacity.capacity_bytes == 0 {
                            return CapacityScore { used: 0, capacity: 0, known: false };
                        }
                        found = true;
                        used = sat_add_u64(used, capacity.projected_bytes(0));
                        capacity_bytes = sat_add_u64(capacity_bytes, capacity.capacity_bytes);
                        assert(domain.holds(after[i as int]));
                    },
                    None => {
                        return CapacityScore { used: 0, capacity: 0, known: false };
                    },
                }
            } else {
                proof {
                    if domain_is_populated(after, domain) {
                        let k = choose|k: int| 0 <= k < after.len() && domain.holds(#[trigger] after[k]);
                        assert(domain.holds(before[k]));
                    }
                }
            }
            proof {
                if domain_is_populated(before, domain) {
                    let k = choose|k: int| 0 <= k < before.len() && domain.holds(#[trigger] before[k]);
                    assert(domain.holds(after[k]));
                }
                assert forall|j: int|
                    0 <= j < after.len() && domain.holds(#[trigger] after[j]) implies self.usage@.dom().contains(
                    (after[j].dg_id, 0),
                ) && self.usage@[(after[j].dg_id, 0)].capacity.capacity_bytes > 0 by {
                    if j < i {
                        assert(domain.holds(before[j]));
                    }
                }
            }
            i = i + 1;
        }
        proof {
            assert(groups@.take(i as int) =~= groups@);
            lemma_domain_sums_nonnegative(groups@, self.usage@, domain);
        }
        CapacityScore {
            used: sat_add_u64(used, planned_bytes),
            capacity: capacity_bytes,
            known: found,
        }
    }

    /// Account for every byte in a selected plan. `release` gives the claims
    /// back when the allocation attempt ends.
    pub fn reserve_plan(&mut self, entries: &[PlacementEntry], bytes_per_block: u64) -> (r:
        InFlightReservation)
        ensures
            r.claims() == plan_claims(old(self).usage.order(), entries@, bytes_per_block),
            final(self).usage.order() == Seq::new(
                old(self).usage.order().len(),
                |i: int| claimed_row(old(self).usage.order()[i], entries@, bytes_per_block),
            ),
            *final(self) == (TopologySnapshot { usage: final(self).usage, ..*old(self) }),
    {
        let mut counters: Vec<Claim> = Vec::new();
        let mut next: Table<UsageRow> = Table::new();
        let rows = self.usage.rows();
        let mut i: usize = 0;
        while i < rows.len()
            invariant
                i <= rows.len(),
                rows@ == self.usage.order(),
                unique_keys(rows@),
                counters@ == plan_claims(rows@.take(i as int), entries@, bytes_per_block),
                next.order().len() == i,
                forall|j: int|
                    0 <= j < i ==> #[trigger] next.order()[j] == claimed_row(
                        rows@[j],
                        entries@,
                        bytes_per_block,
                    ),
            decreases rows.len() - i,
        {
            let row = rows[i];
            let (planned, bytes) = claimed_bytes(entries, bytes_per_block, row.dg_id);
            proof {
                assert(rows@.take(i + 1).drop_last() =~= rows@.take(i as int));
                assert(rows@.take(i + 1).last() == row);
                if has_key(next.order(), row.key()) {
                    let k = choose|k: int|
                        0 <= k < next.order().len() && (#[trigger] next.order()[k]).key() == row.key();
                    assert(rows@[k].key() != rows@[i as int].key());
                }
            }
            if planned {
                counters.push(Claim { dg_id: row.dg_id, since: row.since, bytes });
                let mut capacity = row.capacity;
                capacity.in_flight = capacity.in_flight.wrapping_add(bytes);
                next.put(UsageRow { dg_id: row.dg_id, capacity, since: row.since });
            } else {
                next.put(row);
            }
            i = i + 1;
        }
        proof {
            assert(rows@.take(i as int) =~= rows@);
            assert(next.order() =~= Seq::new(
                rows@.len(),
                |j: int| claimed_row(rows@[j], entries@, bytes_per_block),
            ));
        }
        self.usage = next;
        InFlightReservation { counters }
    }

    /// Give back the claims of an ended allocation attempt.
    pub fn release(&mut self, reservation: InFlightReservation)
        ensures
            final(self).usage.order() == Seq::new(
                old(self).usage.order().len(),
                |i: int| released_row(old(self).usage.order()[i], reservation.claims()),
            ),
            *final(self) == (TopologySnapshot { usage: final(self).usage, ..*old(self) }),
    {
        let mut next: Table<UsageRow> = Table::new();
        let rows = self.usage.rows();
        let mut i: usize = 0;
        while i < rows.len()
            invariant
                i <= rows.len(),
                rows@ == self.usage.order(),
                unique_keys(rows@),
                next.order().len() == i,
                forall|j: int|
                    0 <= j < i ==> #[trigger] next.order()[j] == released_row(
                        rows@[j],
                        reservation.claims(),
                    ),
            decreases rows.len() - i,
        {
            let row = rows[i];
            proof {
                if has_key(next.order(), row.key()) {
                    let k = choose|k: int|
                        0 <= k < next.order().len() && (#[trigger] next.order()[k]).key() == row.key();
                    assert(rows@[k].key() != rows@[i as int].key());
                }
            }
            match find_claim(&reservation.counters, row.dg_id, row.since) {
                Some(bytes) => {
                    let mut capacity = row.capacity;
                    capacity.in_flight = capacity.in_flight.wrapping_sub(bytes);
                    next.put(UsageRow { dg_id: row.dg_id, capacity, since: row.since });
                },
                None => {
                    next.put(row);
                },
            }
            i = i + 1;
        }
        proof {
            assert(next.order() =~= Seq::new(
                rows@.len(),
                |j: int| released_row(rows@[j], reservation.claims()),
            ));
        }
        self.usage = next;
    }

    /// Nodes in a given rack.
    pub fn nodes_in_rack(&self, rack_id: u64) -> (r: Vec<u64>)
        ensures
            r@ == (if self.racks@.dom().contains((rack_id, 0)) {
                self.racks@[(rack_id, 0)].node_ids@
            } else {
                Seq::empty()
            }),
    {
        match self.racks.get((rack_id, 0)) {
            Some(rack) => copy_ids(&rack.node_ids),
            None => Vec::new(),
        }
    }

    /// Rack ID for a given node.
    pub fn rack_for_node(&self, node_id: u64) -> (r: Option<u64>)
        ensures
            match r {
                Some(rack_id) => self.nodes@.dom().contains((rack_id, node_id)),
                None => forall|rack_id: u64| !#[trigger] self.nodes@.dom().contains((rack_id, node_id)),
            },
    {
        let rows = self.nodes.rows();
        let mut i: usize = 0;
        while i < rows.len()
            invariant
                i <= rows.len(),
                rows@ == self.nodes.order(),
                forall|j: int| 0 <= j < i ==> (#[trigger] rows@[j]).node_id != node_id,
            decreases rows.len() - i,
        {
            if rows[i].node_id == node_id {
                assert(has_key(rows@, (rows@[i as int].rack_id, node_id))) by {
                    assert(rows@[i as int].key() == (rows@[i as int].rack_id, node_id));
                }
                return Some(rows[i].rack_id);
            }
            i = i + 1;
        }
        assert forall|rack_id: u64| !#[trigger] self.nodes@.dom().contains((rack_id, node_id)) by {
            if has_key(rows@, (rack_id, node_id)) {
                let k = choose|k: int|
                    0 <= k < rows@.len() && (#[trigger] rows@[k]).key() == (rack_id, node_id);
                assert(rows@[k].node_id != node_id);
            }
        }
        None
    }

    /// All rack IDs.
    pub fn rack_ids(&self) -> (r: Vec<u64>)
        ensures
            r@.len() == self.racks.order().len(),
            forall|i: int| 0 <= i < r@.len() ==> r@[i] == (#[trigger] self.racks.order()[i]).rack_id,
            r@.no_duplicates(),
    {
        let rows = self.racks.rows();
        let mut out: Vec<u64> = Vec::new();
        let mut i: usize = 0;
        while i < rows.len()
            invariant
                i <= rows.len(),
                rows@ == self.racks.order(),
                out@.len() == i,
                forall|j: int| 0 <= j < i ==> out@[j] == (#[trigger] rows@[j]).rack_id,
            decreases rows.len() - i,
        {
            out.push(rows[i].rack_id);
            i = i + 1;
        }
        assert forall|a: int, b: int| 0 <= a < b < out@.len() implies out@[a] != out@[b] by {
            assert(rows@[a].key() != rows@[b].key());
        }
        out
    }

    /// Number of disk-groups in the snapshot.
    pub fn disk_group_count(&self) -> (r: usize)
        ensures
            r == self.disk_groups.order().len(),
    {
        self.disk_groups.len()
    }

    /// Check if the snapshot is empty (no racks loaded yet).
    pub fn is_empty(&self) -> (r: bool)
        ensures
            r == (self.racks.order().len() == 0),
    {
        self.racks.len() == 0
    }

    /// Unit size in bytes (0 if not yet known).
    pub fn unit_size_bytes(&self) -> (r: u32)
        ensures
            r == self.unit_size_bytes,
    {
        self.unit_size_bytes
    }
}

impl Default for TopologySnapshot {
    fn default() -> (r: Self)
        ensures
            r.spec_is_unloaded(),
    {
        TopologySnapshot {
            racks: Table::new(),
            nodes: Table::new(),
            disk_groups: Table::new(),
            disks: Table::new(),
            usage: Table::new(),
            generation: 0,
            unit_size_bytes: 0,
        }
    }
}

/// Copies a run of IDs.
pub fn copy_ids(ids: &[u64]) -> (r: Vec<u64>)
    ensures
        r@ == ids@,
{
    let mut out: Vec<u64> = Vec::new();
    let mut i: usize = 0;
    while i < ids.len()
        invariant
            i <= ids.len(),
            out@ == ids@.take(i as int),
        decreases ids.len() - i,
    {
        out.push(ids[i]);
        assert(ids@.take(i + 1) =~= ids@.take(i as int).push(ids@[i as int]));
        i = i + 1;
    }
    assert(ids@.take(i as int) =~= ids@);
    out
}

fn claimed_bytes(entries: &[PlacementEntry], bytes_per_block: u64, dg_id: u64) -> (r: (bool, u64))
    ensures
        r.0 == is_planned(entries@, dg_id),
        r.1 == clip_u64(planned_bytes(entries@, bytes_per_block, dg_id)),
{
    let mut planned = false;
    let mut bytes: u64 = 0;
    let mut i: usize = 0;
    while i < entries.len()
        invariant
            i <= entries.len(),
            planned == is_planned(entries@.take(i as int), dg_id),
            bytes == clip_u64(planned_bytes(entries@.take(i as int), bytes_per_block, dg_id)),
        decreases entries.len() - i,
    {
        let ghost before = entries@.take(i as int);
        let ghost after = entries@.take(i + 1);
        let entry = entries[i];
        proof {
            assert(after.drop_last() =~= before);
            assert(after.last() == entry);
            lemma_planned_nonnegative(before, bytes_per_block, dg_id);
            let count = entry.block_count;
            assert(bytes_per_block * count >= 0) by (nonlinear_arith)
                requires
                    bytes_per_block >= 0,
                    count >= 0,
            ;
        }
        if entry.disk_group_id == dg_id {
            planned = true;
            bytes = sat_add_u64(bytes, sat_mul_u64(bytes_per_block, entry.block_count as u64));
            assert(after[i as int].disk_group_id == dg_id);
        } else {
            proof {
                if is_planned(after, dg_id) {
                    let k = choose|k: int|
                        0 <= k < after.len() && (#[trigger] after[k]).disk_group_id == dg_id;
                    assert(before[k].disk_group_id == dg_id);
                }
            }
        }
        proof {
            if is_planned(before, dg_id) {
                let k = choose|k: int|
                    0 <= k < before.len() && (#[trigger] before[k]).disk_group_id == dg_id;
                assert(after[k].disk_group_id == dg_id);
            }
        }
        i = i + 1;
    }
    assert(entries@.take(i as int) =~= entries@);
    (planned, bytes)
}

fn find_claim(claims: &Vec<Claim>, dg_id: u64, since: u64) -> (r: Option<u64>)
    ensures
        r == claim_on(claims@, dg_id, since),
{
    let mut i: usize = 0;
    assert(claims@.skip(0) =~= claims@);
    while i < claims.len()
        invariant
            i <= claims.len(),
            claim_on(claims@, dg_id, since) == claim_on(claims@.skip(i as int), dg_id, since),
        decreases claims.len() - i,
    {
        assert(claims@.skip(i as int).skip(1) =~= claims@.skip(i + 1));
        if claims[i].dg_id == dg_id && claims[i].since == since {
            return Some(claims[i].bytes);
        }
        i = i + 1;
    }
    None
}

} // verus!
