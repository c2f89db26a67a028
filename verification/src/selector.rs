//! Placement selector: chooses racks, nodes and disk-groups for strip blocks.
//!
//! Mirror: distinct nodes across distinct racks. Erasure coding: rack-aware
//! with a per-node limit, in a safe and an unsafe mode.
use vstd::prelude::*;
use crate::text::{decimal, text, text_two_numbers};
use crate::topology::{DiskGroupEntry, DiskLocation, TopologySnapshot};
pub use crate::types::FailureDomainPriority;

pub mod balance;
pub mod ec;
pub mod effects;
pub mod mirror;

pub use crate::selector::ec::EcPlacement;
pub use crate::selector::mirror::MirrorPlacement;

verus! {

/// Placement constraints: negative hints for exclusion.
#[derive(Debug)]
pub struct PlacementConstraints {
    /// Nodes to exclude (e.g. failed or in recovery).
    pub exclude_nodes: Vec<u64>,
    /// Racks to exclude.
    pub exclude_racks: Vec<u64>,
    /// Disk-groups to exclude.
    pub exclude_disk_groups: Vec<u64>,
    /// Permit EC placement that exceeds the safe per-node failure bound.
    pub allow_unsafe_ec: bool,
    /// Permit a plan that cannot satisfy every requested failure domain.
    pub allow_degraded_failure_domains: bool,
    /// Ordering used to choose among otherwise eligible domains.
    pub failure_domain_priority: FailureDomainPriority,
}

/// Model of placement constraints.
pub struct ConstraintsModel {
    pub exclude_nodes: Seq<u64>,
    pub exclude_racks: Seq<u64>,
    pub exclude_disk_groups: Seq<u64>,
    pub allow_unsafe_ec: bool,
    pub allow_degraded_failure_domains: bool,
    pub failure_domain_priority: FailureDomainPriority,
}

impl View for PlacementConstraints {
    type V = ConstraintsModel;

    open spec fn view(&self) -> ConstraintsModel {
        ConstraintsModel {
            exclude_nodes: self.exclude_nodes@,
            exclude_racks: self.exclude_racks@,
            exclude_disk_groups: self.exclude_disk_groups@,
            allow_unsafe_ec: self.allow_unsafe_ec,
            allow_degraded_failure_domains: self.allow_degraded_failure_domains,
            failure_domain_priority: self.failure_domain_priority,
        }
    }
}

impl ConstraintsModel {
    /// No exclusions, nothing relaxed, racks first.
    pub open spec fn none() -> ConstraintsModel {
        ConstraintsModel {
            exclude_nodes: Seq::empty(),
            exclude_racks: Seq::empty(),
            exclude_disk_groups: Seq::empty(),
            allow_unsafe_ec: false,
            allow_degraded_failure_domains: false,
            failure_domain_priority: FailureDomainPriority::RackFirst,
        }
    }

    /// Nothing excludes the place.
    pub open spec fn admits(self, place: DiskLocation) -> bool {
        !self.exclude_racks.contains(place.rack_id) && !self.exclude_nodes.contains(place.node_id)
            && !self.exclude_disk_groups.contains(place.disk_group_id)
    }
}

/// Whether `ids` holds `id`.
pub fn contains_id(ids: &[u64], id: u64) -> (r: bool)
    ensures
        r == ids@.contains(id),
{
    let mut i: usize = 0;
    while i < ids.len()
        invariant
            i <= ids.len(),
            forall|j: int| 0 <= j < i ==> ids@[j] != id,
        decreases ids.len() - i,
    {
        if ids[i] == id {
            assert(ids@[i as int] == id);
            return true;
        }
        i = i + 1;
    }
    false
}

impl Default for PlacementConstraints {
    fn default() -> (r: Self)
        ensures
            r@ == ConstraintsModel::none(),
    {
        let r = PlacementConstraints {
            exclude_nodes: Vec::new(),
            exclude_racks: Vec::new(),
            exclude_disk_groups: Vec::new(),
            allow_unsafe_ec: false,
            allow_degraded_failure_domains: false,
            failure_domain_priority: FailureDomainPriority::RackFirst,
        };
        assert(r.exclude_nodes@ =~= Seq::<u64>::empty());
        r
    }
}

impl Clone for PlacementConstraints {
    fn clone(&self) -> (r: Self)
        ensures
            r@ == self@,
    {
        PlacementConstraints {
            exclude_nodes: crate::topology::copy_ids(&self.exclude_nodes),
            exclude_racks: crate::topology::copy_ids(&self.exclude_racks),
            exclude_disk_groups: crate::topology::copy_ids(&self.exclude_disk_groups),
            allow_unsafe_ec: self.allow_unsafe_ec,
            allow_degraded_failure_domains: self.allow_degraded_failure_domains,
            failure_domain_priority: self.failure_domain_priority,
        }
    }
}

impl PlacementConstraints {
    /// No constraints.
    pub fn new() -> (r: Self)
        ensures
            r@ == ConstraintsModel::none(),
    {
        PlacementConstraints::default()
    }

    /// Also exclude a node.
    pub fn exclude_node(self, node: u64) -> (r: Self)
        ensures
            r@ == (ConstraintsModel { exclude_nodes: self@.exclude_nodes.push(node), ..self@ }),
    {
        let mut next = self;
        next.exclude_nodes.push(node);
        next
    }

    /// Also exclude a rack.
    pub fn exclude_rack(self, rack: u64) -> (r: Self)
        ensures
            r@ == (ConstraintsModel { exclude_racks: self@.exclude_racks.push(rack), ..self@ }),
    {
        let mut next = self;
        next.exclude_racks.push(rack);
        next
    }

    /// Also exclude a disk-group.
    pub fn exclude_disk_group(self, dg: u64) -> (r: Self)
        ensures
            r@ == (ConstraintsModel {
                exclude_disk_groups: self@.exclude_disk_groups.push(dg),
                ..self@
            }),
    {
        let mut next = self;
        next.exclude_disk_groups.push(dg);
        next
    }

    /// Permit unsafe EC placement.
    pub fn allow_unsafe_ec(self) -> (r: Self)
        ensures
            r@ == (ConstraintsModel { allow_unsafe_ec: true, ..self@ }),
    {
        let mut next = self;
        next.allow_unsafe_ec = true;
        next
    }

    /// Permit degraded failure domains.
    pub fn allow_degraded_failure_domains(self) -> (r: Self)
        ensures
            r@ == (ConstraintsModel { allow_degraded_failure_domains: true, ..self@ }),
    {
        let mut next = self;
        next.allow_degraded_failure_domains = true;
        next
    }

    /// Choose by another priority.
    pub fn with_failure_domain_priority(self, priority: FailureDomainPriority) -> (r: Self)
        ensures
            r@ == (ConstraintsModel { failure_domain_priority: priority, ..self@ }),
    {
        let mut next = self;
        next.failure_domain_priority = priority;
        next
    }

    /// Check if a rack is excluded.
    pub fn is_rack_excluded(&self, rack: u64) -> (r: bool)
        ensures
            r == self@.exclude_racks.contains(rack),
    {
        contains_id(&self.exclude_racks, rack)
    }

    /// Check if a node is excluded.
    pub fn is_node_excluded(&self, node: u64) -> (r: bool)
        ensures
            r == self@.exclude_nodes.contains(node),
    {
        contains_id(&self.exclude_nodes, node)
    }

    /// Check if a disk-group is excluded.
    pub fn is_dg_excluded(&self, dg: u64) -> (r: bool)
        ensures
            r == self@.exclude_disk_groups.contains(dg),
    {
        contains_id(&self.exclude_disk_groups, dg)
    }
}

/// A single placement decision: where to place `block_count` blocks.
#[derive(Debug, Clone, Copy, PartialEq, Eq, Structural)]
pub struct PlacementEntry {
    pub rack_id: u64,
    pub node_id: u64,
    pub disk_group_id: u64,
    pub block_count: u32,
}

/// One block on a disk-group.
pub open spec fn one_block(place: DiskLocation) -> PlacementEntry {
    PlacementEntry {
        rack_id: place.rack_id,
        node_id: place.node_id,
        disk_group_id: place.disk_group_id,
        block_count: 1,
    }
}

/// Blocks in all.
pub open spec fn block_total(entries: Seq<PlacementEntry>) -> int
    decreases entries.len(),
{
    if entries.len() == 0 {
        0
    } else {
        block_total(entries.drop_last()) + entries.last().block_count
    }
}

/// Blocks on a rack.
pub open spec fn rack_blocks(entries: Seq<PlacementEntry>, rack_id: u64) -> int
    decreases entries.len(),
{
    if entries.len() == 0 {
        0
    } else {
        rack_blocks(entries.drop_last(), rack_id) + if entries.last().rack_id == rack_id {
            entries.last().block_count as int
        } else {
            0
        }
    }
}

/// Blocks on a node.
pub open spec fn node_blocks(entries: Seq<PlacementEntry>, node_id: u64) -> int
    decreases entries.len(),
{
    if entries.len() == 0 {
        0
    } else {
        node_blocks(entries.drop_last(), node_id) + if entries.last().node_id == node_id {
            entries.last().block_count as int
        } else {
            0
        }
    }
}

/// Most blocks on one rack among the racks of the first `n` entries.
pub open spec fn peak_rack_blocks(entries: Seq<PlacementEntry>, n: nat) -> int
    decreases n,
{
    if n == 0 {
        0
    } else {
        let front = peak_rack_blocks(entries, (n - 1) as nat);
        let own = rack_blocks(entries, entries[n - 1].rack_id);
        if own > front {
            own
        } else {
            front
        }
    }
}

/// Most blocks on one node among the nodes of the first `n` entries.
pub open spec fn peak_node_blocks(entries: Seq<PlacementEntry>, n: nat) -> int
    decreases n,
{
    if n == 0 {
        0
    } else {
        let front = peak_node_blocks(entries, (n - 1) as nat);
        let own = node_blocks(entries, entries[n - 1].node_id);
        if own > front {
            own
        } else {
            front
        }
    }
}

/// No rack and no node holds more blocks than there are.
pub proof fn lemma_blocks_bounded(entries: Seq<PlacementEntry>, id: u64)
    ensures
        0 <= rack_blocks(entries, id) <= block_total(entries),
        0 <= node_blocks(entries, id) <= block_total(entries),
    decreases entries.len(),
{
    if entries.len() > 0 {
        lemma_blocks_bounded(entries.drop_last(), id);
    }
}

/// The peaks bound every rack and every node, and are no more than the total.
pub proof fn lemma_peaks(entries: Seq<PlacementEntry>, n: nat)
    requires
        n <= entries.len(),
    ensures
        0 <= peak_rack_blocks(entries, n) <= block_total(entries),
        0 <= peak_node_blocks(entries, n) <= block_total(entries),
        forall|i: int|
            0 <= i < n ==> rack_blocks(entries, (#[trigger] entries[i]).rack_id) <= peak_rack_blocks(
                entries,
                n,
            ) && node_blocks(entries, entries[i].node_id) <= peak_node_blocks(entries, n),
    decreases n,
{
    lemma_blocks_bounded(entries, 0);
    if n > 0 {
        lemma_peaks(entries, (n - 1) as nat);
        lemma_blocks_bounded(entries, entries[n - 1].rack_id);
        lemma_blocks_bounded(entries, entries[n - 1].node_id);
    }
}

/// A prefix holds no more blocks than the whole.
pub proof fn lemma_prefix_total(entries: Seq<PlacementEntry>, n: int)
    requires
        0 <= n <= entries.len(),
    ensures
        0 <= block_total(entries.take(n)) <= block_total(entries),
    decreases entries.len() - n,
{
    lemma_blocks_bounded(entries.take(n), 0);
    if n < entries.len() {
        lemma_prefix_total(entries, n + 1);
        assert(entries.take(n + 1).drop_last() =~= entries.take(n));
    } else {
        assert(entries.take(n) =~= entries);
    }
}

/// A prefix holds no more blocks on a rack or a node than the whole.
pub proof fn lemma_prefix_blocks(entries: Seq<PlacementEntry>, id: u64, n: int)
    requires
        0 <= n <= entries.len(),
    ensures
        0 <= rack_blocks(entries.take(n), id) <= rack_blocks(entries, id),
        0 <= node_blocks(entries.take(n), id) <= node_blocks(entries, id),
    decreases entries.len() - n,
{
    lemma_blocks_bounded(entries.take(n), id);
    if n < entries.len() {
        lemma_prefix_blocks(entries, id, n + 1);
        assert(entries.take(n + 1).drop_last() =~= entries.take(n));
    } else {
        assert(entries.take(n) =~= entries);
    }
}

/// The blocks of every rack and of every node that the entries name can be
/// counted.
pub open spec fn domains_countable(entries: Seq<PlacementEntry>) -> bool {
    forall|i: int|
        0 <= i < entries.len() ==> rack_blocks(entries, (#[trigger] entries[i]).rack_id) <= u32::MAX
            && node_blocks(entries, entries[i].node_id) <= u32::MAX
}

/// Entries whose blocks can be counted together can be counted by domain.
pub proof fn lemma_countable(entries: Seq<PlacementEntry>)
    requires
        block_total(entries) <= u32::MAX,
    ensures
        domains_countable(entries),
{
    assert forall|i: int| 0 <= i < entries.len() implies rack_blocks(
        entries,
        (#[trigger] entries[i]).rack_id,
    ) <= u32::MAX && node_blocks(entries, entries[i].node_id) <= u32::MAX by {
        lemma_blocks_bounded(entries, entries[i].rack_id);
        lemma_blocks_bounded(entries, entries[i].node_id);
    }
}

/// Adds up the blocks on a rack.
pub fn count_rack_blocks(entries: &[PlacementEntry], rack_id: u64) -> (r: u32)
    requires
        rack_blocks(entries@, rack_id) <= u32::MAX,
    ensures
        r == rack_blocks(entries@, rack_id),
{
    let mut sum: u32 = 0;
    let mut i: usize = 0;
    while i < entries.len()
        invariant
            i <= entries.len(),
            rack_blocks(entries@, rack_id) <= u32::MAX,
            sum == rack_blocks(entries@.take(i as int), rack_id),
        decreases entries.len() - i,
    {
        proof {
            assert(entries@.take(i + 1).drop_last() =~= entries@.take(i as int));
            lemma_prefix_blocks(entries@, rack_id, i + 1);
        }
        if entries[i].rack_id == rack_id {
            sum = sum + entries[i].block_count;
        }
        i = i + 1;
    }
    assert(entries@.take(i as int) =~= entries@);
    sum
}

/// Adds up the blocks on a node.
pub fn count_node_blocks(entries: &[PlacementEntry], node_id: u64) -> (r: u32)
    requires
        node_blocks(entries@, node_id) <= u32::MAX,
    ensures
        r == node_blocks(entries@, node_id),
{
    let mut sum: u32 = 0;
    let mut i: usize = 0;
    while i < entries.len()
        invariant
            i <= entries.len(),
            node_blocks(entries@, node_id) <= u32::MAX,
            sum == node_blocks(entries@.take(i as int), node_id),
        decreases entries.len() - i,
    {
        proof {
            assert(entries@.take(i + 1).drop_last() =~= entries@.take(i as int));
            lemma_prefix_blocks(entries@, node_id, i + 1);
        }
        if entries[i].node_id == node_id {
            sum = sum + entries[i].block_count;
        }
        i = i + 1;
    }
    assert(entries@.take(i as int) =~= entries@);
    sum
}

/// The output of a placement selection: a list of entries.
#[derive(Debug)]
pub struct PlacementPlan {
    pub entries: Vec<PlacementEntry>,
    /// Whether every failure domain assessable before disk allocation is
    /// protected.
    pub safe_mode: bool,
    pub priority: FailureDomainPriority,
    pub protection: PlacementProtection,
}

/// Model of a plan.
pub struct PlanModel {
    pub entries: Seq<PlacementEntry>,
    pub safe_mode: bool,
    pub priority: FailureDomainPriority,
    pub protection: PlacementProtection,
}

impl View for PlacementPlan {
    type V = PlanModel;

    open spec fn view(&self) -> PlanModel {
        PlanModel {
            entries: self.entries@,
            safe_mode: self.safe_mode,
            priority: self.priority,
            protection: self.protection,
        }
    }
}

impl PlacementPlan {
    /// Blocks in all.
    pub fn total_blocks(&self) -> (r: u32)
        requires
            block_total(self@.entries) <= u32::MAX,
        ensures
            r == block_total(self@.entries),
    {
        let mut sum: u32 = 0;
        let mut i: usize = 0;
        while i < self.entries.len()
            invariant
                i <= self.entries.len(),
                block_total(self@.entries) <= u32::MAX,
                sum == block_total(self@.entries.take(i as int)),
            decreases self.entries.len() - i,
        {
            proof {
                assert(self@.entries.take(i + 1).drop_last() =~= self@.entries.take(i as int));
                lemma_prefix_total(self@.entries, i + 1);
            }
            sum = sum + self.entries[i].block_count;
            i = i + 1;
        }
        assert(self@.entries.take(i as int) =~= self@.entries);
        sum
    }
}

/// Rack and node protection assessed before physical disks are chosen.
#[derive(Debug, Clone, Copy, PartialEq, Eq, Structural)]
pub struct PlacementProtection {
    pub loss_budget: u32,
    pub max_fragments_per_rack: u32,
    pub max_fragments_per_node: u32,
    pub rack_protected: bool,
    pub node_protected: bool,
}

impl PlacementProtection {
    /// Some domain is unprotected.
    pub open spec fn is_degraded(self) -> bool {
        !self.rack_protected || !self.node_protected
    }

    /// Whether some domain is unprotected.
    pub fn degraded(self) -> (r: bool)
        ensures
            r == self.is_degraded(),
    {
        !self.rack_protected || !self.node_protected
    }
}

/// Placement error.
#[derive(Debug)]
pub enum PlacementError {
    InsufficientNodes { needed: usize, available: usize },
    InsufficientCapacity,
    NoHealthyDiskGroups,
    UnsafePlacementRequired,
    RackProtectionUnavailable { loss_budget: u32, actual: u32 },
    NodeProtectionUnavailable { loss_budget: u32, actual: u32 },
    DiskProtectionUnavailable { loss_budget: u32, actual: u32 },
    InvalidShape(String),
}

/// Model of a placement error.
pub enum PlacementErrorModel {
    InsufficientNodes { needed: usize, available: usize },
    InsufficientCapacity,
    NoHealthyDiskGroups,
    UnsafePlacementRequired,
    RackProtectionUnavailable { loss_budget: u32, actual: u32 },
    NodeProtectionUnavailable { loss_budget: u32, actual: u32 },
    DiskProtectionUnavailable { loss_budget: u32, actual: u32 },
    InvalidShape(Seq<char>),
}

impl View for PlacementError {
    type V = PlacementErrorModel;

    open spec fn view(&self) -> PlacementErrorModel {
        match self {
            PlacementError::InsufficientNodes { needed, available } => PlacementErrorModel::InsufficientNodes {
                needed: *needed,
                available: *available,
            },
            PlacementError::InsufficientCapacity => PlacementErrorModel::InsufficientCapacity,
            PlacementError::NoHealthyDiskGroups => PlacementErrorModel::NoHealthyDiskGroups,
            PlacementError::UnsafePlacementRequired => PlacementErrorModel::UnsafePlacementRequired,
            PlacementError::RackProtectionUnavailable { loss_budget, actual } => PlacementErrorModel::RackProtectionUnavailable {
                loss_budget: *loss_budget,
                actual: *actual,
            },
            PlacementError::NodeProtectionUnavailable { loss_budget, actual } => PlacementErrorModel::NodeProtectionUnavailable {
                loss_budget: *loss_budget,
                actual: *actual,
            },
            PlacementError::DiskProtectionUnavailable { loss_budget, actual } => PlacementErrorModel::DiskProtectionUnavailable {
                loss_budget: *loss_budget,
                actual: *actual,
            },
            PlacementError::InvalidShape(reason) => PlacementErrorModel::InvalidShape(reason@),
        }
    }
}

impl PlacementErrorModel {
    /// Text of the error.
    pub open spec fn message(self) -> Seq<char> {
        match self {
            PlacementErrorModel::InsufficientNodes { needed, available } => "insufficient nodes: need "@
                + decimal(needed as nat) + ", have "@ + decimal(available as nat),
            PlacementErrorModel::InsufficientCapacity => "insufficient capacity after applying exclusion hints"@,
            PlacementErrorModel::NoHealthyDiskGroups => "no healthy disk-groups available"@,
            PlacementErrorModel::UnsafePlacementRequired => "safe EC placement is unavailable and unsafe placement was not enabled"@,
            PlacementErrorModel::RackProtectionUnavailable { loss_budget, actual } => "rack protection is unavailable: loss budget "@
                + decimal(loss_budget as nat) + ", maximum fragments "@ + decimal(actual as nat),
            PlacementErrorModel::NodeProtectionUnavailable { loss_budget, actual } => "node protection is unavailable: loss budget "@
                + decimal(loss_budget as nat) + ", maximum fragments "@ + decimal(actual as nat),
            PlacementErrorModel::DiskProtectionUnavailable { loss_budget, actual } => "disk protection is unavailable: loss budget "@
                + decimal(loss_budget as nat) + ", maximum fragments "@ + decimal(actual as nat),
            PlacementErrorModel::InvalidShape(reason) => "invalid placement shape: "@ + reason,
        }
    }
}

impl PlacementError {
    /// Text of the error.
    pub fn message(&self) -> (r: String)
        ensures
            r@ == self@.message(),
    {
        match self {
            PlacementError::InsufficientNodes { needed, available } => text_two_numbers(
                "insufficient nodes: need ",
                *needed as u64,
                ", have ",
                *available as u64,
            ),
            PlacementError::InsufficientCapacity => text(
                "insufficient capacity after applying exclusion hints",
            ),
            PlacementError::NoHealthyDiskGroups => text("no healthy disk-groups available"),
            PlacementError::UnsafePlacementRequired => text(
                "safe EC placement is unavailable and unsafe placement was not enabled",
            ),
            PlacementError::RackProtectionUnavailable { loss_budget, actual } => text_two_numbers(
                "rack protection is unavailable: loss budget ",
                *loss_budget as u64,
                ", maximum fragments ",
                *actual as u64,
            ),
            PlacementError::NodeProtectionUnavailable { loss_budget, actual } => text_two_numbers(
                "node protection is unavailable: loss budget ",
                *loss_budget as u64,
                ", maximum fragments ",
                *actual as u64,
            ),
            PlacementError::DiskProtectionUnavailable { loss_budget, actual } => text_two_numbers(
                "disk protection is unavailable: loss budget ",
                *loss_budget as u64,
                ", maximum fragments ",
                *actual as u64,
            ),
            PlacementError::InvalidShape(reason) => {
                let mut out = text("invalid placement shape: ");
                out.append(reason.as_str());
                out
            },
        }
    }
}

/// Protection that the entries give against the loss of whole domains.
pub open spec fn protection_of(entries: Seq<PlacementEntry>, loss_budget: u32) -> PlacementProtection {
    let rack = peak_rack_blocks(entries, entries.len());
    let node = peak_node_blocks(entries, entries.len());
    PlacementProtection {
        loss_budget,
        max_fragments_per_rack: rack as u32,
        max_fragments_per_node: node as u32,
        rack_protected: rack <= loss_budget,
        node_protected: node <= loss_budget,
    }
}

/// Assesses the protection that the entries give.
pub fn assess_entries(entries: &[PlacementEntry], loss_budget: u32) -> (r: PlacementProtection)
    requires
        domains_countable(entries@),
    ensures
        r == protection_of(entries@, loss_budget),
{
    let mut rack: u32 = 0;
    let mut node: u32 = 0;
    let mut i: usize = 0;
    while i < entries.len()
        invariant
            i <= entries.len(),
            domains_countable(entries@),
            rack == peak_rack_blocks(entries@, i as nat),
            node == peak_node_blocks(entries@, i as nat),
        decreases entries.len() - i,
    {
        let own_rack: u32 = count_rack_blocks(entries, entries[i].rack_id);
        let own_node: u32 = count_node_blocks(entries, entries[i].node_id);
        if own_rack > rack {
            rack = own_rack;
        }
        if own_node > node {
            node = own_node;
        }
        i = i + 1;
    }
    PlacementProtection {
        loss_budget,
        max_fragments_per_rack: rack,
        max_fragments_per_node: node,
        rack_protected: rack <= loss_budget,
        node_protected: node <= loss_budget,
    }
}

/// The plan that the entries make, with the protection that they give.
pub open spec fn assessed_plan(
    entries: Seq<PlacementEntry>,
    loss_budget: u32,
    constraints: ConstraintsModel,
) -> PlanModel {
    let protection = protection_of(entries, loss_budget);
    PlanModel {
        entries,
        safe_mode: !protection.is_degraded(),
        priority: constraints.failure_domain_priority,
        protection,
    }
}

/// Makes a plan of the entries, with the protection that they give.
pub fn assess_plan(
    entries: Vec<PlacementEntry>,
    loss_budget: u32,
    constraints: &PlacementConstraints,
) -> (r: PlacementPlan)
    requires
        domains_countable(entries@),
    ensures
        r@ == assessed_plan(entries@, loss_budget, constraints@),
{
    let protection = assess_entries(&entries, loss_budget);
    PlacementPlan {
        entries,
        safe_mode: !protection.degraded(),
        priority: constraints.failure_domain_priority,
        protection,
    }
}

/// The plan that the entries make, or why they are refused.
///
/// A plan without any loss budget reports unprotected domains but is not
/// refused for them: it is an explicitly non-redundant shape.
pub open spec fn finished_plan(
    entries: Seq<PlacementEntry>,
    loss_budget: u32,
    constraints: ConstraintsModel,
    ec_shape: bool,
) -> Result<PlanModel, PlacementErrorModel> {
    let protection = protection_of(entries, loss_budget);
    if ec_shape && protection.max_fragments_per_node > loss_budget && !constraints.allow_unsafe_ec {
        Err(PlacementErrorModel::UnsafePlacementRequired)
    } else if loss_budget > 0 && protection.is_degraded()
        && !constraints.allow_degraded_failure_domains {
        if !protection.rack_protected {
            Err(
                PlacementErrorModel::RackProtectionUnavailable {
                    loss_budget,
                    actual: protection.max_fragments_per_rack,
                },
            )
        } else {
            Err(
                PlacementErrorModel::NodeProtectionUnavailable {
                    loss_budget,
                    actual: protection.max_fragments_per_node,
                },
            )
        }
    } else {
        Ok(assessed_plan(entries, loss_budget, constraints))
    }
}

/// Model of a selection result.
pub open spec fn selection_model(
    r: Result<PlacementPlan, PlacementError>,
) -> Result<PlanModel, PlacementErrorModel> {
    match r {
        Ok(plan) => Ok(plan@),
        Err(error) => Err(error@),
    }
}

/// Makes a plan of the entries, or refuses them.
pub fn finish_plan(
    entries: Vec<PlacementEntry>,
    loss_budget: u32,
    constraints: &PlacementConstraints,
    ec_shape: bool,
) -> (r: Result<PlacementPlan, PlacementError>)
    requires
        domains_countable(entries@),
    ensures
        selection_model(r) == finished_plan(entries@, loss_budget, constraints@, ec_shape),
{
    let plan = assess_plan(entries, loss_budget, constraints);
    let protection = plan.protection;
    if ec_shape && protection.max_fragments_per_node > loss_budget && !constraints.allow_unsafe_ec {
        return Err(PlacementError::UnsafePlacementRequired);
    }
    if loss_budget > 0 && protection.degraded() && !constraints.allow_degraded_failure_domains {
        if !protection.rack_protected {
            return Err(
                PlacementError::RackProtectionUnavailable {
                    loss_budget,
                    actual: protection.max_fragments_per_rack,
                },
            );
        }
        return Err(
            PlacementError::NodeProtectionUnavailable {
                loss_budget,
                actual: protection.max_fragments_per_node,
            },
        );
    }
    Ok(plan)
}

/// A finished plan that is not degraded keeps the loss of any one rack or node
/// that it uses within its budget.
pub proof fn law_safe_plan_survives_domain_loss(
    entries: Seq<PlacementEntry>,
    loss_budget: u32,
    constraints: ConstraintsModel,
    ec_shape: bool,
    i: int,
)
    requires
        finished_plan(entries, loss_budget, constraints, ec_shape) matches Ok(plan) && plan.safe_mode,
        0 <= i < entries.len(),
    ensures
        rack_blocks(entries, entries[i].rack_id) <= loss_budget,
        node_blocks(entries, entries[i].node_id) <= loss_budget,
{
    lemma_peaks(entries, entries.len());
}

/// The places of the healthy disk-groups that the constraints admit, in order.
pub open spec fn admitted_places(
    groups: Seq<DiskGroupEntry>,
    constraints: ConstraintsModel,
) -> Seq<DiskLocation>
    decreases groups.len(),
{
    if groups.len() == 0 {
        Seq::empty()
    } else {
        let front = admitted_places(groups.drop_last(), constraints);
        if constraints.admits(groups.last().spec_place()) {
            front.push(groups.last().spec_place())
        } else {
            front
        }
    }
}

/// Healthy disk-groups of the snapshot with the exclusion hints applied.
pub fn healthy_dgs(snap: &TopologySnapshot, constraints: &PlacementConstraints) -> (r: Vec<DiskLocation>)
    ensures
        r@ == admitted_places(snap.healthy(), constraints@),
{
    let groups = snap.healthy_disk_groups();
    let mut out: Vec<DiskLocation> = Vec::new();
    let mut i: usize = 0;
    while i < groups.len()
        invariant
            i <= groups.len(),
            groups@.len() == snap.healthy().len(),
            forall|j: int| 0 <= j < groups@.len() ==> *(#[trigger] groups@[j]) == snap.healthy()[j],
            out@ == admitted_places(snap.healthy().take(i as int), constraints@),
        decreases groups.len() - i,
    {
        let place = groups[i].place();
        proof {
            assert(snap.healthy().take(i + 1).drop_last() =~= snap.healthy().take(i as int));
            assert(snap.healthy().take(i + 1).last() == *groups@[i as int]);
        }
        if !constraints.is_rack_excluded(place.rack_id) && !constraints.is_node_excluded(
            place.node_id,
        ) && !constraints.is_dg_excluded(place.disk_group_id) {
            out.push(place);
        }
        i = i + 1;
    }
    assert(snap.healthy().take(i as int) =~= snap.healthy());
    out
}

/// `id` put into an ascending run, unless it is there.
pub open spec fn with_id(ids: Seq<u64>, id: u64) -> Seq<u64>
    decreases ids.len(),
{
    if ids.len() == 0 || ids.last() < id {
        ids.push(id)
    } else if ids.last() == id {
        ids
    } else {
        with_id(ids.drop_last(), id).push(ids.last())
    }
}

/// Each ID once, ascending.
pub open spec fn ascending(ids: Seq<u64>) -> bool {
    forall|i: int, j: int| 0 <= i < j < ids.len() ==> ids[i] < ids[j]
}

/// The racks of the places, each once, ascending.
pub open spec fn racks_of(places: Seq<DiskLocation>) -> Seq<u64>
    decreases places.len(),
{
    if places.len() == 0 {
        Seq::empty()
    } else {
        with_id(racks_of(places.drop_last()), places.last().rack_id)
    }
}

/// The nodes of the places, each once, ascending.
pub open spec fn nodes_of(places: Seq<DiskLocation>) -> Seq<u64>
    decreases places.len(),
{
    if places.len() == 0 {
        Seq::empty()
    } else {
        with_id(nodes_of(places.drop_last()), places.last().node_id)
    }
}

proof fn lemma_with_id(ids: Seq<u64>, id: u64)
    requires
        ascending(ids),
    ensures
        ascending(with_id(ids, id)),
        forall|x: u64| #[trigger] with_id(ids, id).contains(x) <==> ids.contains(x) || x == id,
        with_id(ids, id).len() <= ids.len() + 1,
        with_id(ids, id).len() > 0,
        with_id(ids, id).last() >= id,
        ids.len() > 0 ==> with_id(ids, id).last() == (if ids.last() < id {
            id
        } else {
            ids.last()
        }),
    decreases ids.len(),
{
    let r = with_id(ids, id);
    if ids.len() == 0 || ids.last() < id {
        assert forall|x: u64| #[trigger] r.contains(x) <==> ids.contains(x) || x == id by {
            assert(r[ids.len() as int] == id);
            if ids.contains(x) {
                let k = choose|k: int| 0 <= k < ids.len() && ids[k] == x;
                assert(r[k] == x);
            }
        }
    } else if ids.last() == id {
        assert(ids[ids.len() - 1] == id);
    } else {
        let front = ids.drop_last();
        assert(ascending(front));
        lemma_with_id(front, id);
        let inner = with_id(front, id);
        if front.len() > 0 {
            assert(front.last() < ids.last()) by {
                assert(ids[ids.len() - 2] < ids[ids.len() - 1]);
            }
        }
        assert(inner.last() < ids.last());
        assert forall|i: int, j: int| 0 <= i < j < r.len() implies r[i] < r[j] by {
            if j == r.len() - 1 {
                assert(inner[i] <= inner.last());
            }
        }
        assert forall|x: u64| #[trigger] r.contains(x) <==> ids.contains(x) || x == id by {
            if r.contains(x) {
                let k = choose|k: int| 0 <= k < r.len() && r[k] == x;
                if k < inner.len() {
                    assert(inner[k] == x);
                    assert(inner.contains(x));
                    if x != id {
                        let m = choose|m: int| 0 <= m < front.len() && front[m] == x;
                        assert(ids[m] == x);
                    }
                } else {
                    assert(ids[ids.len() - 1] == x);
                }
            }
            if ids.contains(x) {
                let k = choose|k: int| 0 <= k < ids.len() && ids[k] == x;
                if k < front.len() {
                    assert(front[k] == x);
                    assert(inner.contains(x));
                    let m = choose|m: int| 0 <= m < inner.len() && inner[m] == x;
                    assert(r[m] == x);
                } else {
                    assert(r[inner.len() as int] == x);
                }
            }
            if x == id {
                assert(inner.contains(x));
                let m = choose|m: int| 0 <= m < inner.len() && inner[m] == x;
                assert(r[m] == x);
            }
        }
    }
}

/// The racks of the places are ascending and exactly those that occur.
pub proof fn lemma_racks_of(places: Seq<DiskLocation>)
    ensures
        ascending(racks_of(places)),
        forall|i: int| 0 <= i < places.len() ==> racks_of(places).contains((#[trigger] places[i]).rack_id),
        forall|x: u64| #[trigger]
            racks_of(places).contains(x) ==> exists|i: int|
                0 <= i < places.len() && (#[trigger] places[i]).rack_id == x,
        places.len() > 0 ==> racks_of(places).len() > 0,
        racks_of(places).len() <= places.len(),
    decreases places.len(),
{
    if places.len() > 0 {
        let front = places.drop_last();
        lemma_racks_of(front);
        lemma_with_id(racks_of(front), places.last().rack_id);
        assert forall|i: int| 0 <= i < places.len() implies racks_of(places).contains(
            (#[trigger] places[i]).rack_id,
        ) by {
            if i < front.len() {
                assert(front[i] == places[i]);
            }
        }
        assert forall|x: u64| #[trigger] racks_of(places).contains(x) implies exists|i: int|
            0 <= i < places.len() && (#[trigger] places[i]).rack_id == x by {
            if x == places.last().rack_id {
                assert(places[places.len() - 1].rack_id == x);
            } else {
                assert(racks_of(front).contains(x));
                let i = choose|i: int| 0 <= i < front.len() && (#[trigger] front[i]).rack_id == x;
                assert(places[i].rack_id == x);
            }
        }
    }
}

/// The nodes of the places are ascending and exactly those that occur.
pub proof fn lemma_nodes_of(places: Seq<DiskLocation>)
    ensures
        ascending(nodes_of(places)),
        forall|i: int| 0 <= i < places.len() ==> nodes_of(places).contains((#[trigger] places[i]).node_id),
        forall|x: u64| #[trigger]
            nodes_of(places).contains(x) ==> exists|i: int|
                0 <= i < places.len() && (#[trigger] places[i]).node_id == x,
        places.len() > 0 ==> nodes_of(places).len() > 0,
        nodes_of(places).len() <= places.len(),
    decreases places.len(),
{
    if places.len() > 0 {
        let front = places.drop_last();
        lemma_nodes_of(front);
        lemma_with_id(nodes_of(front), places.last().node_id);
        assert forall|i: int| 0 <= i < places.len() implies nodes_of(places).contains(
            (#[trigger] places[i]).node_id,
        ) by {
            if i < front.len() {
                assert(front[i] == places[i]);
            }
        }
        assert forall|x: u64| #[trigger] nodes_of(places).contains(x) implies exists|i: int|
            0 <= i < places.len() && (#[trigger] places[i]).node_id == x by {
            if x == places.last().node_id {
                assert(places[places.len() - 1].node_id == x);
            } else {
                assert(nodes_of(front).contains(x));
                let i = choose|i: int| 0 <= i < front.len() && (#[trigger] front[i]).node_id == x;
                assert(places[i].node_id == x);
            }
        }
    }
}

proof fn lemma_with_id_at(ids: Seq<u64>, id: u64, p: int)
    requires
        0 <= p <= ids.len(),
        forall|j: int| p <= j < ids.len() ==> ids[j] > id,
        p > 0 ==> ids[p - 1] <= id,
    ensures
        with_id(ids, id) == (if p > 0 && ids[p - 1] == id {
            ids
        } else {
            ids.insert(p, id)
        }),
    decreases ids.len(),
{
    if ids.len() == 0 {
        assert(ids.push(id) =~= ids.insert(p, id));
    } else if p == ids.len() {
        if ids.last() < id {
            assert(ids.push(id) =~= ids.insert(p, id));
        }
    } else {
        lemma_with_id_at(ids.drop_last(), id, p);
        if p > 0 && ids[p - 1] == id {
            assert(ids.drop_last().push(ids.last()) =~= ids);
        } else {
            assert(ids.drop_last().insert(p, id).push(ids.last()) =~= ids.insert(p, id));
        }
    }
}

fn add_id(ids: &mut Vec<u64>, id: u64)
    ensures
        final(ids)@ == with_id(old(ids)@, id),
{
    let mut p: usize = ids.len();
    while p > 0 && ids[p - 1] > id
        invariant
            p <= ids.len(),
            forall|j: int| p <= j < ids.len() ==> ids@[j] > id,
        decreases p,
    {
        p = p - 1;
    }
    proof {
        lemma_with_id_at(ids@, id, p as int);
    }
    if p > 0 && ids[p - 1] == id {
        return ;
    }
    ids.insert(p, id);
}

/// The racks of the places, each once, ascending.
pub fn collect_racks(places: &[DiskLocation]) -> (r: Vec<u64>)
    ensures
        r@ == racks_of(places@),
{
    let mut out: Vec<u64> = Vec::new();
    let mut i: usize = 0;
    while i < places.len()
        invariant
            i <= places.len(),
            out@ == racks_of(places@.take(i as int)),
        decreases places.len() - i,
    {
        assert(places@.take(i + 1).drop_last() =~= places@.take(i as int));
        add_id(&mut out, places[i].rack_id);
        i = i + 1;
    }
    assert(places@.take(i as int) =~= places@);
    out
}

/// The nodes of the places, each once, ascending.
pub fn collect_nodes(places: &[DiskLocation]) -> (r: Vec<u64>)
    ensures
        r@ == nodes_of(places@),
{
    let mut out: Vec<u64> = Vec::new();
    let mut i: usize = 0;
    while i < places.len()
        invariant
            i <= places.len(),
            out@ == nodes_of(places@.take(i as int)),
        decreases places.len() - i,
    {
        assert(places@.take(i + 1).drop_last() =~= places@.take(i as int));
        add_id(&mut out, places[i].node_id);
        i = i + 1;
    }
    assert(places@.take(i as int) =~= places@);
    out
}

} // verus!
