//! Planning of moves from full to empty disk-groups.
use vstd::prelude::*;
use crate::arith::{clip_u64, max_u64, sat_mul_u64, sat_sub_u64};
use crate::lifecycle::error::LifecycleError;
use crate::lifecycle::handler::{chunk_models, cursor_after, scan_cursor_after};
use crate::repair::attempt::{disks_of, segment_disks};
use crate::table::{unique_keys, Row};
use crate::task::relocation::{first_at, first_index, weakens, weakens_protection};
use crate::topology::{DiskGroupEntry, TopologySnapshot};
use crate::types::{
    position_segment, strip_models, Chunk, ChunkId, ChunkStrip, DiskId, PlacementAssessment,
    Segment, StripModel,
};

verus! {

/// Chunks of a scan page.
pub const SCAN_PAGE_CHUNKS: u32 = 256;

/// When and how far to rebalance.
#[derive(Debug, Clone, Copy, PartialEq, Eq, Structural)]
pub struct PlacementRebalanceConfig {
    /// Difference in utilization that is worth a move, in percent.
    pub imbalance_threshold_pct: u32,
    /// Free bytes that a target must have.
    pub min_target_free_bytes: u64,
    /// How long a difference must last.
    pub hysteresis_secs: u64,
}

/// Space of a disk-group.
#[derive(Debug, Clone, Copy, PartialEq, Eq, Structural)]
pub struct GroupUsage {
    pub dg_id: u64,
    pub used_bytes: u64,
    pub capacity_bytes: u64,
    pub free_bytes: u64,
}

/// The space of the disk-groups that report some capacity, in order.
pub open spec fn usages_of(snap: &TopologySnapshot, groups: Seq<DiskGroupEntry>) -> Seq<GroupUsage>
    decreases groups.len(),
{
    if groups.len() == 0 {
        Seq::empty()
    } else {
        let front = usages_of(snap, groups.drop_last());
        match snap.spec_capacity(groups.last().dg_id) {
            Some(capacity) => if capacity.capacity_bytes != 0 {
                front.push(
                    GroupUsage {
                        dg_id: groups.last().dg_id,
                        used_bytes: capacity.used_bytes,
                        capacity_bytes: capacity.capacity_bytes,
                        free_bytes: capacity.free_bytes,
                    },
                )
            } else {
                front
            },
            None => front,
        }
    }
}

/// `a` is emptier than `b`: a smaller part of it is used, or the same part and
/// it comes first.
pub open spec fn emptier(a: GroupUsage, b: GroupUsage) -> bool {
    let (left, right) = (a.used_bytes * b.capacity_bytes, b.used_bytes * a.capacity_bytes);
    left < right || (left == right && a.dg_id < b.dg_id)
}

fn is_emptier(a: &GroupUsage, b: &GroupUsage) -> (r: bool)
    ensures
        r == emptier(*a, *b),
{
    assert(0 <= a.used_bytes * b.capacity_bytes <= 0xffff_ffff_ffff_ffff * 0xffff_ffff_ffff_ffff)
        by (nonlinear_arith)
        requires
            0 <= a.used_bytes <= 0xffff_ffff_ffff_ffff,
            0 <= b.capacity_bytes <= 0xffff_ffff_ffff_ffff,
    ;
    assert(0 <= b.used_bytes * a.capacity_bytes <= 0xffff_ffff_ffff_ffff * 0xffff_ffff_ffff_ffff)
        by (nonlinear_arith)
        requires
            0 <= b.used_bytes <= 0xffff_ffff_ffff_ffff,
            0 <= a.capacity_bytes <= 0xffff_ffff_ffff_ffff,
    ;
    let left: u128 = (a.used_bytes as u128) * (b.capacity_bytes as u128);
    let right: u128 = (b.used_bytes as u128) * (a.capacity_bytes as u128);
    left < right || (left == right && a.dg_id < b.dg_id)
}

/// Emptiness is a strict order of disk-groups with some capacity.
pub proof fn law_emptier_is_an_order(a: GroupUsage, b: GroupUsage, c: GroupUsage)
    requires
        a.capacity_bytes > 0,
        b.capacity_bytes > 0,
        c.capacity_bytes > 0,
    ensures
        !emptier(a, a),
        emptier(a, b) && emptier(b, c) ==> emptier(a, c),
        a.dg_id != b.dg_id ==> emptier(a, b) || emptier(b, a),
{
    let (au, ac) = (a.used_bytes as int, a.capacity_bytes as int);
    let (bu, bc) = (b.used_bytes as int, b.capacity_bytes as int);
    let (cu, cc) = (c.used_bytes as int, c.capacity_bytes as int);
    assert(au * bc <= bu * ac && bu * cc <= cu * bc ==> au * cc <= cu * ac && ((au * bc < bu * ac || bu
        * cc < cu * bc) ==> au * cc < cu * ac)) by (nonlinear_arith)
        requires
            ac > 0,
            bc > 0,
            cc > 0,
    {
        if au * bc <= bu * ac && bu * cc <= cu * bc {
            assert(au * bc * cc <= bu * ac * cc);
            assert(bu * cc * ac <= cu * bc * ac);
            assert(bu * ac * cc == bu * cc * ac);
            assert((au * cc) * bc == au * bc * cc);
            assert((cu * ac) * bc == cu * bc * ac);
            if au * bc < bu * ac {
                assert(au * bc * cc < bu * ac * cc);
            }
            if bu * cc < cu * bc {
                assert(bu * cc * ac < cu * bc * ac);
            }
        }
    }
}

/// No disk-group is fuller.
pub open spec fn is_fullest(usages: Seq<GroupUsage>, at: int) -> bool {
    0 <= at < usages.len() && forall|j: int|
        0 <= j < usages.len() ==> !emptier(usages[at], #[trigger] usages[j])
}

/// The disk-group can take what leaves the source.
pub open spec fn is_target(usage: GroupUsage, source: u64, min_free: u64) -> bool {
    usage.dg_id != source && usage.free_bytes >= min_free
}

/// No disk-group that can take something is emptier.
pub open spec fn is_emptiest_target(
    usages: Seq<GroupUsage>,
    source: u64,
    min_free: u64,
    at: int,
) -> bool {
    &&& 0 <= at < usages.len()
    &&& is_target(usages[at], source, min_free)
    &&& forall|j: int|
        0 <= j < usages.len() && is_target(#[trigger] usages[j], source, min_free) ==> !emptier(
            usages[j],
            usages[at],
        )
}

/// Used part in percent.
pub open spec fn used_percent(usage: GroupUsage) -> u64 {
    (clip_u64(usage.used_bytes * 100) as int / usage.capacity_bytes as int) as u64
}

/// The full and the empty disk-group whose utilizations differ enough.
pub open spec fn skewed_pair(usages: Seq<GroupUsage>, policy: PlacementRebalanceConfig) -> Option<(
    u64,
    u64,
)> {
    if exists|s: int| #[trigger] is_fullest(usages, s) {
        let source = usages[choose|s: int| #[trigger] is_fullest(usages, s)];
        if exists|t: int| #[trigger]
            is_emptiest_target(usages, source.dg_id, policy.min_target_free_bytes, t) {
            let target = usages[choose|t: int| #[trigger]
                is_emptiest_target(usages, source.dg_id, policy.min_target_free_bytes, t)];
            if clip_u64(used_percent(source) - used_percent(target))
                >= policy.imbalance_threshold_pct {
                Some((source.dg_id, target.dg_id))
            } else {
                None
            }
        } else {
            None
        }
    } else {
        None
    }
}

/// Every disk-group has some capacity, and their identities differ.
pub open spec fn proper(usages: Seq<GroupUsage>) -> bool {
    &&& forall|i: int| 0 <= i < usages.len() ==> (#[trigger] usages[i]).capacity_bytes > 0
    &&& forall|i: int, j: int|
        0 <= i < j < usages.len() ==> (#[trigger] usages[i]).dg_id != (#[trigger] usages[j]).dg_id
}

proof fn lemma_fullest_unique(usages: Seq<GroupUsage>, a: int, b: int)
    requires
        proper(usages),
        is_fullest(usages, a),
        is_fullest(usages, b),
    ensures
        a == b,
{
    law_emptier_is_an_order(usages[a], usages[b], usages[a]);
    if a < b {
        assert(usages[a].dg_id != usages[b].dg_id);
    }
    if b < a {
        assert(usages[b].dg_id != usages[a].dg_id);
    }
}

proof fn lemma_emptiest_unique(usages: Seq<GroupUsage>, source: u64, min_free: u64, a: int, b: int)
    requires
        proper(usages),
        is_emptiest_target(usages, source, min_free, a),
        is_emptiest_target(usages, source, min_free, b),
    ensures
        a == b,
{
    law_emptier_is_an_order(usages[a], usages[b], usages[a]);
    if a < b {
        assert(usages[a].dg_id != usages[b].dg_id);
    }
    if b < a {
        assert(usages[b].dg_id != usages[a].dg_id);
    }
}

proof fn lemma_usages_proper(snap: &TopologySnapshot, groups: Seq<DiskGroupEntry>)
    requires
        unique_keys(groups),
    ensures
        proper(usages_of(snap, groups)),
        forall|i: int|
            0 <= i < usages_of(snap, groups).len() ==> exists|k: int|
                0 <= k < groups.len() && (#[trigger] groups[k]).dg_id == (#[trigger] usages_of(
                    snap,
                    groups,
                )[i]).dg_id,
    decreases groups.len(),
{
    if groups.len() > 0 {
        let front = groups.drop_last();
        assert(unique_keys(front)) by {
            assert forall|i: int, j: int| 0 <= i < j < front.len() implies Row::key(
                #[trigger] front[i],
            ) != Row::key(#[trigger] front[j]) by {
                assert(Row::key(groups[i]) != Row::key(groups[j]));
            }
        }
        lemma_usages_proper(snap, front);
        let before = usages_of(snap, front);
        let all = usages_of(snap, groups);
        assert forall|i: int| 0 <= i < all.len() implies exists|k: int|
            0 <= k < groups.len() && (#[trigger] groups[k]).dg_id == (#[trigger] all[i]).dg_id by {
            if i < before.len() {
                assert(all[i] == before[i]);
                let k = choose|k: int|
                    0 <= k < front.len() && (#[trigger] front[k]).dg_id == before[i].dg_id;
                assert(groups[k].dg_id == all[i].dg_id);
            } else {
                assert(groups[groups.len() - 1].dg_id == all[i].dg_id);
            }
        }
        assert forall|i: int, j: int| 0 <= i < j < all.len() implies (#[trigger] all[i]).dg_id != (
        #[trigger] all[j]).dg_id by {
            assert(all[i] == before[i]);
            if j < before.len() {
                assert(before[i].dg_id != before[j].dg_id);
            } else {
                let k = choose|k: int|
                    0 <= k < front.len() && (#[trigger] front[k]).dg_id == before[i].dg_id;
                assert(Row::key(groups[k]) != Row::key(
                    groups[groups.len() - 1],
                ));
            }
        }
    }
}

/// The space of the healthy disk-groups that report some capacity.
pub fn group_usages(snap: &TopologySnapshot) -> (r: Vec<GroupUsage>)
    ensures
        r@ == usages_of(snap, snap.healthy()),
        unique_keys(snap.healthy()),
{
    let groups = snap.healthy_disk_groups();
    let ghost entries = snap.healthy();
    let mut out: Vec<GroupUsage> = Vec::new();
    let mut i: usize = 0;
    while i < groups.len()
        invariant
            i <= groups.len(),
            entries == snap.healthy(),
            groups@.len() == entries.len(),
            forall|j: int| 0 <= j < groups@.len() ==> *(#[trigger] groups@[j]) == entries[j],
            out@ == usages_of(snap, entries.take(i as int)),
        decreases groups.len() - i,
    {
        proof {
            assert(entries.take(i + 1).drop_last() =~= entries.take(i as int));
            assert(entries.take(i + 1).last() == entries[i as int]);
            assert(*groups@[i as int] == entries[i as int]);
        }
        let dg_id: u64 = groups[i].dg_id;
        match snap.disk_group_capacity(dg_id) {
            Some(capacity) => {
                if capacity.capacity_bytes != 0 {
                    out.push(
                        GroupUsage {
                            dg_id,
                            used_bytes: capacity.used_bytes,
                            capacity_bytes: capacity.capacity_bytes,
                            free_bytes: capacity.free_bytes,
                        },
                    );
                }
            },
            None => {},
        }
        i = i + 1;
    }
    assert(entries.take(i as int) =~= entries);
    out
}

fn percent_of(usage: &GroupUsage) -> (r: u64)
    requires
        usage.capacity_bytes > 0,
    ensures
        r == used_percent(*usage),
{
    sat_mul_u64(usage.used_bytes, 100) / usage.capacity_bytes
}

fn fullest_group(usages: &Vec<GroupUsage>) -> (r: Option<usize>)
    requires
        proper(usages@),
    ensures
        match r {
            Some(at) => is_fullest(usages@, at as int),
            None => usages@.len() == 0,
        },
{
    if usages.len() == 0 {
        return None;
    }
    let mut best: usize = 0;
    let mut i: usize = 1;
    proof {
        law_emptier_is_an_order(usages@[0], usages@[0], usages@[0]);
    }
    while i < usages.len()
        invariant
            proper(usages@),
            best < i <= usages@.len(),
            forall|j: int| 0 <= j < i ==> !emptier(usages@[best as int], #[trigger] usages@[j]),
        decreases usages.len() - i,
    {
        if is_emptier(&usages[best], &usages[i]) {
            proof {
                let (old_best, next) = (usages@[best as int], usages@[i as int]);
                assert forall|j: int| 0 <= j < i + 1 implies !emptier(next, #[trigger] usages@[j]) by {
                    law_emptier_is_an_order(old_best, next, usages@[j]);
                    law_emptier_is_an_order(next, usages@[j], next);
                }
            }
            best = i;
        }
        i = i + 1;
    }
    Some(best)
}

fn emptiest_target(usages: &Vec<GroupUsage>, source: u64, min_free: u64) -> (r: Option<usize>)
    requires
        proper(usages@),
    ensures
        match r {
            Some(at) => is_emptiest_target(usages@, source, min_free, at as int),
            None => forall|j: int|
                0 <= j < usages@.len() ==> !is_target(#[trigger] usages@[j], source, min_free),
        },
{
    let mut best: Option<usize> = None;
    let mut i: usize = 0;
    while i < usages.len()
        invariant
            proper(usages@),
            i <= usages@.len(),
            match best {
                None => forall|j: int|
                    0 <= j < i ==> !is_target(#[trigger] usages@[j], source, min_free),
                Some(at) => at < i && is_target(usages@[at as int], source, min_free) && forall|j: int|
                    0 <= j < i && is_target(#[trigger] usages@[j], source, min_free) ==> !emptier(
                        usages@[j],
                        usages@[at as int],
                    ),
            },
        decreases usages.len() - i,
    {
        let usage = usages[i];
        if usage.dg_id != source && usage.free_bytes >= min_free {
            match best {
                None => {
                    proof {
                        law_emptier_is_an_order(usage, usage, usage);
                    }
                    best = Some(i);
                },
                Some(at) => {
                    if is_emptier(&usage, &usages[at]) {
                        proof {
                            let current = usages@[at as int];
                            assert forall|j: int|
                                0 <= j < i + 1 && is_target(
                                    #[trigger] usages@[j],
                                    source,
                                    min_free,
                                ) implies !emptier(usages@[j], usage) by {
                                law_emptier_is_an_order(usages@[j], usage, current);
                            }
                        }
                        best = Some(i);
                    } else {
                        proof {
                            law_emptier_is_an_order(usage, usage, usage);
                        }
                    }
                },
            }
        }
        i = i + 1;
    }
    best
}

/// Selects the fullest disk-group and the emptiest one that can take something,
/// where their utilizations differ enough.
pub fn select_skewed_pair(snap: &TopologySnapshot, policy: &PlacementRebalanceConfig) -> (r: Option<(
    u64,
    u64,
)>)
    ensures
        r == skewed_pair(usages_of(snap, snap.healthy()), *policy),
{
    let usages = group_usages(snap);
    proof {
        lemma_usages_proper(snap, snap.healthy());
    }
    let at: usize = match fullest_group(&usages) {
        Some(at) => at,
        None => {
            return None;
        },
    };
    let source = usages[at];
    proof {
        let chosen = choose|s: int| #[trigger] is_fullest(usages@, s);
        lemma_fullest_unique(usages@, chosen, at as int);
    }
    let to: usize = match emptiest_target(&usages, source.dg_id, policy.min_target_free_bytes) {
        Some(to) => to,
        None => {
            return None;
        },
    };
    let target = usages[to];
    proof {
        let chosen = choose|t: int| #[trigger]
            is_emptiest_target(usages@, source.dg_id, policy.min_target_free_bytes, t);
        lemma_emptiest_unique(
            usages@,
            source.dg_id,
            policy.min_target_free_bytes,
            chosen,
            to as int,
        );
    }
    let spread: u64 = sat_sub_u64(percent_of(&source), percent_of(&target));
    if spread >= policy.imbalance_threshold_pct as u64 {
        Some((source.dg_id, target.dg_id))
    } else {
        None
    }
}

/// A move that is on its way to its target.
#[derive(Debug, Clone, Copy, PartialEq, Eq, Structural)]
pub struct PendingMove {
    pub target_disk_group_id: u64,
    pub source: Segment,
    pub target: Segment,
}

/// A segment that can leave the full disk-group.
#[derive(Debug)]
pub struct MoveCandidate {
    pub strip_index: usize,
    pub source: Segment,
    /// Disks of the strip, which the target must not use.
    pub excluded: Vec<DiskId>,
}

/// Model of a candidate.
pub struct CandidateModel {
    pub strip_index: int,
    pub source: Segment,
    pub excluded: Seq<DiskId>,
}

impl View for MoveCandidate {
    type V = CandidateModel;

    open spec fn view(&self) -> CandidateModel {
        CandidateModel {
            strip_index: self.strip_index as int,
            source: self.source,
            excluded: self.excluded@,
        }
    }
}

/// The segment stands in the disk-group.
pub open spec fn stands_in(snap: &TopologySnapshot, segment: Segment, dg_id: u64) -> bool {
    match crate::placement_repair::place_of(snap, segment) {
        Some(place) => place.disk_group_id == dg_id,
        None => false,
    }
}

/// First segment from `from` on that stands in the disk-group.
pub open spec fn first_in_group(
    snap: &TopologySnapshot,
    segments: Seq<Segment>,
    dg_id: u64,
    from: int,
) -> Option<Segment>
    decreases segments.len() - from,
{
    if from < 0 || from >= segments.len() {
        None
    } else if stands_in(snap, segments[from], dg_id) {
        Some(segments[from])
    } else {
        first_in_group(snap, segments, dg_id, from + 1)
    }
}

fn find_in_group(snap: &TopologySnapshot, segments: &[Segment], dg_id: u64) -> (r: Option<Segment>)
    ensures
        r == first_in_group(snap, segments@, dg_id, 0),
{
    let mut i: usize = 0;
    while i < segments.len()
        invariant
            i <= segments.len(),
            first_in_group(snap, segments@, dg_id, 0) == first_in_group(
                snap,
                segments@,
                dg_id,
                i as int,
            ),
        decreases segments.len() - i,
    {
        let here: bool = match segments[i].disk_id {
            Some(disk) => match snap.disk_location(disk) {
                Some(place) => place.disk_group_id == dg_id,
                None => false,
            },
            None => false,
        };
        if here {
            return Some(segments[i]);
        }
        i = i + 1;
    }
    None
}

/// The segments of the first `n` strips that can leave the disk-group: one per
/// strip, of strips that need no repair.
pub open spec fn candidates_of(
    snap: &TopologySnapshot,
    strips: Seq<StripModel>,
    dg_id: u64,
    n: int,
) -> Seq<CandidateModel>
    decreases n,
{
    if n <= 0 {
        Seq::empty()
    } else {
        let front = candidates_of(snap, strips, dg_id, n - 1);
        let strip = strips[n - 1];
        if strip.placement_repair_required {
            front
        } else {
            match first_in_group(snap, strip.segments(), dg_id, 0) {
                Some(source) => front.push(
                    CandidateModel {
                        strip_index: n - 1,
                        source,
                        excluded: disks_of(strip.segments()),
                    },
                ),
                None => front,
            }
        }
    }
}

/// Models of a run of candidates.
pub open spec fn candidate_models(candidates: Seq<MoveCandidate>) -> Seq<CandidateModel> {
    Seq::new(candidates.len(), |i: int| candidates[i]@)
}

/// What a cycle has to do.
#[derive(Debug, Clone, Copy, PartialEq, Eq, Structural)]
pub enum CycleStep {
    /// Deliver the move that is on its way; it is then settled.
    Deliver(PendingMove),
    /// Nothing is skewed for long enough.
    Rest,
    /// Look for a segment to move from the first to the second disk-group.
    Search { source_dg: u64, target_dg: u64 },
}

/// Plans one move at a time from full to empty disk-groups.
#[derive(Debug, Clone, Copy, PartialEq, Eq, Structural)]
pub struct PlacementRebalancePlanner {
    pub policy: PlacementRebalanceConfig,
    pub skew_observed_since_ms: u64,
    pub scan_cursor: Option<ChunkId>,
    pub pending: Option<PendingMove>,
}

/// When the skew was first seen, after another look.
pub open spec fn observed_after(since: u64, pair: Option<(u64, u64)>, now_ms: u64) -> u64 {
    if pair is None {
        0
    } else if since == 0 {
        if now_ms == 0 {
            1
        } else {
            now_ms
        }
    } else {
        since
    }
}

/// The skew has lasted long enough.
pub open spec fn lasted(since: u64, now_ms: u64, hysteresis_secs: u64) -> bool {
    if since == 0 {
        hysteresis_secs == 0
    } else {
        clip_u64(now_ms - since) >= clip_u64(hysteresis_secs * 1_000)
    }
}

impl PlacementRebalancePlanner {
    /// A planner that saw nothing yet.
    pub fn new(policy: PlacementRebalanceConfig) -> (r: Self)
        ensures
            r == (PlacementRebalancePlanner {
                policy,
                skew_observed_since_ms: 0,
                scan_cursor: None,
                pending: None,
            }),
    {
        PlacementRebalancePlanner {
            policy,
            skew_observed_since_ms: 0,
            scan_cursor: None,
            pending: None,
        }
    }

    /// Begins a cycle.
    pub fn begin_cycle(&mut self, snap: &TopologySnapshot, now_ms: u64) -> (r: CycleStep)
        ensures
            ({
                let pair = skewed_pair(usages_of(snap, snap.healthy()), old(self).policy);
                let since = old(self).skew_observed_since_ms;
                match old(self).pending {
                    Some(pending) => r == CycleStep::Deliver(pending) && *final(self) == *old(self),
                    None => *final(self) == (PlacementRebalancePlanner {
                        skew_observed_since_ms: observed_after(since, pair, now_ms),
                        ..*old(self)
                    }) && r == (match pair {
                        Some((source_dg, target_dg)) => if lasted(
                            since,
                            now_ms,
                            old(self).policy.hysteresis_secs,
                        ) {
                            CycleStep::Search { source_dg, target_dg }
                        } else {
                            CycleStep::Rest
                        },
                        None => CycleStep::Rest,
                    }),
                }
            }),
    {
        match self.pending {
            Some(pending) => {
                return CycleStep::Deliver(pending);
            },
            None => {},
        }
        let policy = self.policy;
        let (source_dg, target_dg) = match select_skewed_pair(snap, &policy) {
            Some(pair) => pair,
            None => {
                self.skew_observed_since_ms = 0;
                return CycleStep::Rest;
            },
        };
        let observed: u64 = self.skew_observed_since_ms;
        if observed == 0 {
            self.skew_observed_since_ms = max_u64(now_ms, 1);
            if policy.hysteresis_secs != 0 {
                return CycleStep::Rest;
            }
        } else if sat_sub_u64(now_ms, observed) < sat_mul_u64(policy.hysteresis_secs, 1_000) {
            return CycleStep::Rest;
        }
        CycleStep::Search { source_dg, target_dg }
    }

    /// Takes a scan page: the next one begins behind it.
    pub fn took_page(&mut self, chunks: &[Chunk])
        ensures
            *final(self) == (PlacementRebalancePlanner {
                scan_cursor: cursor_after(
                    old(self).scan_cursor,
                    chunk_models(chunks@),
                    SCAN_PAGE_CHUNKS,
                ),
                ..*old(self)
            }),
    {
        self.scan_cursor = scan_cursor_after(self.scan_cursor, chunks, SCAN_PAGE_CHUNKS);
    }

    /// The segments of a chunk that can leave the full disk-group; none of a
    /// chunk without identity.
    pub fn move_candidates(snap: &TopologySnapshot, chunk: &Chunk, source_dg: u64) -> (r: Vec<
        MoveCandidate,
    >)
        ensures
            candidate_models(r@) == (if chunk.id is Some {
                candidates_of(snap, chunk@.strips, source_dg, chunk@.strips.len() as int)
            } else {
                Seq::empty()
            }),
    {
        let mut out: Vec<MoveCandidate> = Vec::new();
        assert(candidate_models(out@) =~= Seq::empty());
        if chunk.id.is_none() {
            return out;
        }
        let ghost models = chunk@.strips;
        let mut i: usize = 0;
        while i < chunk.strips.len()
            invariant
                i <= chunk.strips.len(),
                models == strip_models(chunk.strips@),
                candidate_models(out@) == candidates_of(snap, models, source_dg, i as int),
            decreases chunk.strips.len() - i,
        {
            assert(models[i as int] == chunk.strips@[i as int]@);
            if !chunk.strips[i].placement_repair_required {
                let segments = chunk.strips[i].extract_segments();
                match find_in_group(snap, &segments, source_dg) {
                    Some(source) => {
                        let ghost before = out@;
                        let candidate = MoveCandidate {
                            strip_index: i,
                            source,
                            excluded: segment_disks(&segments),
                        };
                        out.push(candidate);
                        assert(candidate_models(out@) =~= candidate_models(before).push(
                            candidate@,
                        ));
                    },
                    None => {},
                }
            }
            i = i + 1;
        }
        out
    }

    /// Keeps a move until it is delivered.
    pub fn keep(&mut self, pending: PendingMove)
        ensures
            *final(self) == (PlacementRebalancePlanner { pending: Some(pending), ..*old(self) }),
    {
        self.pending = Some(pending);
    }

    /// Settles the move that was delivered.
    pub fn delivered(&mut self)
        ensures
            *final(self) == (PlacementRebalancePlanner { pending: None, ..*old(self) }),
    {
        self.pending = None;
    }
}

/// The segments of a strip once one of them moved.
pub open spec fn moved_segments(segments: Seq<Segment>, source: Segment, target: Segment) -> Option<
    Seq<Segment>,
> {
    if segments.contains(source) {
        Some(segments.update(first_index(segments, source), target))
    } else {
        None
    }
}

/// The segments of a strip once one of them moved; the strip must hold it.
pub fn segments_after_move(strip: &ChunkStrip, source: &Segment, target: Segment) -> (r: Result<
    Vec<Segment>,
    LifecycleError,
>)
    ensures
        match r {
            Ok(segments) => moved_segments(strip@.segments(), *source, target) == Some(segments@),
            Err(error) => error is StateConflict && moved_segments(
                strip@.segments(),
                *source,
                target,
            ) is None,
        },
{
    let mut segments = strip.extract_segments();
    match position_segment(&segments, source) {
        Some(at) => {
            proof {
                assert(segments@[at as int] == *source);
                assert(first_at(segments@, *source, at as int));
                let chosen = first_index(segments@, *source);
                assert(first_at(segments@, *source, chosen));
                assert(chosen == at);
            }
            segments.set(at, target);
            Ok(segments)
        },
        None => Err(LifecycleError::StateConflict),
    }
}

/// Whether a move would weaken a strip, from its assessments before and after;
/// one without layout must not be touched.
pub fn weakens_strip(
    strip: &ChunkStrip,
    current: &PlacementAssessment,
    next: &PlacementAssessment,
) -> (r: bool)
    ensures
        r == (strip@.strip is None || weakens(*current, *next)),
{
    if strip.strip.is_none() {
        return true;
    }
    weakens_protection(current, next)
}

/// The source of a skewed pair is nowhere emptier than its target, and they are
/// two disk-groups.
pub proof fn law_skewed_pair_is_apart(usages: Seq<GroupUsage>, policy: PlacementRebalanceConfig)
    requires
        proper(usages),
    ensures
        skewed_pair(usages, policy) matches Some((source, target)) ==> source != target && exists|
            s: int,
            t: int,
        |
            #![trigger usages[s], usages[t]]
            0 <= s < usages.len() && 0 <= t < usages.len() && usages[s].dg_id == source
                && usages[t].dg_id == target && emptier(usages[t], usages[s])
                && usages[t].free_bytes >= policy.min_target_free_bytes,
{
    match skewed_pair(usages, policy) {
        Some((source, target)) => {
            let s = choose|s: int| #[trigger] is_fullest(usages, s);
            let t = choose|t: int| #[trigger]
                is_emptiest_target(usages, usages[s].dg_id, policy.min_target_free_bytes, t);
            law_emptier_is_an_order(usages[s], usages[t], usages[s]);
            assert(usages[s].dg_id == source && usages[t].dg_id == target);
            assert(!emptier(usages[s], usages[t]));
        },
        None => {},
    }
}

proof fn lemma_fullest_of(usages: Seq<GroupUsage>, n: int) -> (at: int)
    requires
        proper(usages),
        0 < n <= usages.len(),
    ensures
        0 <= at < n,
        forall|j: int| 0 <= j < n ==> !emptier(usages[at], #[trigger] usages[j]),
    decreases n,
{
    let last = n - 1;
    law_emptier_is_an_order(usages[last], usages[last], usages[last]);
    if n == 1 {
        last
    } else {
        let before = lemma_fullest_of(usages, n - 1);
        if emptier(usages[before], usages[last]) {
            assert forall|j: int| 0 <= j < n implies !emptier(usages[last], #[trigger] usages[j]) by {
                if j < last {
                    law_emptier_is_an_order(usages[before], usages[last], usages[j]);
                }
            }
            last
        } else {
            before
        }
    }
}

/// Of some disk-groups one is the fullest.
pub proof fn law_fullest_exists(usages: Seq<GroupUsage>) -> (at: int)
    requires
        proper(usages),
        usages.len() > 0,
    ensures
        is_fullest(usages, at),
{
    lemma_fullest_of(usages, usages.len() as int)
}

proof fn lemma_emptiest_of(
    usages: Seq<GroupUsage>,
    source: u64,
    min_free: u64,
    n: int,
    some: int,
) -> (at: int)
    requires
        proper(usages),
        0 <= some < n <= usages.len(),
        is_target(usages[some], source, min_free),
    ensures
        0 <= at < n,
        is_target(usages[at], source, min_free),
        forall|j: int|
            0 <= j < n && is_target(#[trigger] usages[j], source, min_free) ==> !emptier(
                usages[j],
                usages[at],
            ),
    decreases n,
{
    let last = n - 1;
    law_emptier_is_an_order(usages[last], usages[last], usages[last]);
    let others = exists|k: int|
        0 <= k < last && is_target(#[trigger] usages[k], source, min_free);
    if !others {
        assert(some == last);
        last
    } else {
        let k = choose|k: int| 0 <= k < last && is_target(#[trigger] usages[k], source, min_free);
        let before = lemma_emptiest_of(usages, source, min_free, last, k);
        if is_target(usages[last], source, min_free) && emptier(usages[last], usages[before]) {
            assert forall|j: int|
                0 <= j < n && is_target(#[trigger] usages[j], source, min_free) implies !emptier(
                usages[j],
                usages[last],
            ) by {
                if j < last {
                    law_emptier_is_an_order(usages[j], usages[last], usages[before]);
                }
            }
            last
        } else {
            before
        }
    }
}

/// Where some disk-group can take what leaves the source, one of those is the
/// emptiest.
pub proof fn law_emptiest_target_exists(
    usages: Seq<GroupUsage>,
    source: u64,
    min_free: u64,
    some: int,
) -> (at: int)
    requires
        proper(usages),
        0 <= some < usages.len(),
        is_target(usages[some], source, min_free),
    ensures
        is_emptiest_target(usages, source, min_free, at),
{
    lemma_emptiest_of(usages, source, min_free, usages.len() as int, some)
}

/// The skewed pair is the fullest disk-group and the emptiest that can take what
/// leaves it, wherever their utilizations differ enough.
pub proof fn law_skewed_pair_is_found(
    usages: Seq<GroupUsage>,
    policy: PlacementRebalanceConfig,
    s: int,
    t: int,
)
    requires
        proper(usages),
        is_fullest(usages, s),
        is_emptiest_target(usages, usages[s].dg_id, policy.min_target_free_bytes, t),
    ensures
        skewed_pair(usages, policy) == (if clip_u64(
            used_percent(usages[s]) - used_percent(usages[t]),
        ) >= policy.imbalance_threshold_pct {
            Some((usages[s].dg_id, usages[t].dg_id))
        } else {
            None
        }),
{
    let full = choose|a: int| #[trigger] is_fullest(usages, a);
    lemma_fullest_unique(usages, s, full);
    let empty = choose|a: int| #[trigger]
        is_emptiest_target(usages, usages[full].dg_id, policy.min_target_free_bytes, a);
    lemma_emptiest_unique(
        usages,
        usages[s].dg_id,
        policy.min_target_free_bytes,
        t,
        empty,
    );
}

} // verus!
