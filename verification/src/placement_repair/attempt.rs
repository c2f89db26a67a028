//! One attempt of a placement repair: at most one fragment moves.
use vstd::prelude::*;
use crate::lifecycle::handler::{find_sequence, strip_with_sequence};
use crate::placement_repair::{
    best_group_id, full_disks, full_nodes, full_racks, located_places, over_budget_disks,
    over_budget_domains, select_source, select_target_disk_group, source_of, topology_waiting,
    PlacementRepairError, PlacementRepairTaskPayload, RepairTargetCheckpoint, RepairTargetPhase,
    RETRY_DELAY_MS,
};
use crate::task::executor::{OutcomeModel, TaskOutcome};
use crate::task::relocation::{
    first_at, first_index, replace_segment, weakens, weakens_protection, with_segment,
};
use crate::text::text;
use crate::topology::TopologySnapshot;
use crate::types::{
    contains_segment, position_segment, Chunk, ChunkModel, ChunkStrip, DiskId, LayoutModel,
    PlacementAssessment, Segment, Strip, StripModel,
};

verus! {

/// The strip that a repair is about: that with the sequence, where it is
/// erasure-coded.
pub open spec fn strip_to_repair(chunk: ChunkModel, strip_sequence: u32) -> Option<int> {
    match strip_with_sequence(chunk.strips, strip_sequence, 0) {
        Some(index) => match chunk.strips[index].strip {
            Some(LayoutModel::Ec { .. }) => Some(index),
            _ => None,
        },
        None => None,
    }
}

/// Finds the strip that a repair is about; without one the repair is complete.
pub fn find_strip(chunk: &Chunk, strip_sequence: u32) -> (r: Option<usize>)
    ensures
        (match r {
            Some(index) => Some(index as int),
            None => None,
        }) == strip_to_repair(chunk@, strip_sequence),
        r matches Some(index) ==> index < chunk.strips@.len(),
{
    match find_sequence(&chunk.strips, strip_sequence) {
        Some(index) => {
            assert(chunk@.strips[index as int] == chunk.strips@[index as int]@);
            match &chunk.strips[index].strip {
                Some(Strip::EcStrip(_)) => Some(index),
                _ => None,
            }
        },
        None => None,
    }
}

/// The checkpoint with its target in another phase.
pub open spec fn in_phase(payload: PlacementRepairTaskPayload, phase: RepairTargetPhase) -> PlacementRepairTaskPayload {
    PlacementRepairTaskPayload {
        target: match payload.target {
            Some(target) => Some(RepairTargetCheckpoint { phase, ..target }),
            None => None,
        },
        ..payload
    }
}

/// Moves the target of a checkpoint to another phase.
pub fn set_phase(payload: PlacementRepairTaskPayload, phase: RepairTargetPhase) -> (r:
    PlacementRepairTaskPayload)
    ensures
        r == in_phase(payload, phase),
{
    let mut next = payload;
    next.target =
    match payload.target {
        Some(target) => Some(
            RepairTargetCheckpoint { source: target.source, destination: target.destination, phase },
        ),
        None => None,
    };
    next
}

/// The checkpoint without its target.
pub open spec fn without_target(payload: PlacementRepairTaskPayload) -> PlacementRepairTaskPayload {
    PlacementRepairTaskPayload { target: None, ..payload }
}

/// Drops the target of a checkpoint.
pub fn drop_target(payload: PlacementRepairTaskPayload) -> (r: PlacementRepairTaskPayload)
    ensures
        r == without_target(payload),
{
    let mut next = payload;
    next.target = None;
    next
}

/// What confirming a published target takes.
#[derive(Debug, Clone, Copy, PartialEq, Eq, Structural)]
pub struct ConfirmStep {
    pub payload: PlacementRepairTaskPayload,
    /// The checkpoint changed and is to be stored.
    pub store: bool,
    /// The segment to confirm; its target is then in its last phase.
    pub confirm: Option<Segment>,
}

/// The strip holds the destination in place of the source, and that is not
/// confirmed yet.
pub open spec fn became_published(target: RepairTargetCheckpoint, segments: Seq<Segment>) -> bool {
    &&& target.phase != RepairTargetPhase::Confirmed
    &&& segments.contains(target.destination)
    &&& !segments.contains(target.source)
}

/// What confirming a published target takes.
pub open spec fn confirmation(payload: PlacementRepairTaskPayload, segments: Seq<Segment>) -> ConfirmStep {
    match payload.target {
        None => ConfirmStep { payload, store: false, confirm: None },
        Some(target) => {
            let published = became_published(target, segments);
            let next = if published {
                in_phase(payload, RepairTargetPhase::Published)
            } else {
                payload
            };
            ConfirmStep {
                payload: next,
                store: published,
                confirm: if next.target->0.phase == RepairTargetPhase::Published {
                    Some(target.destination)
                } else {
                    None
                },
            }
        },
    }
}

/// Decides what confirming a published target takes.
pub fn confirm_published_target(payload: PlacementRepairTaskPayload, segments: &[Segment]) -> (r:
    ConfirmStep)
    ensures
        r == confirmation(payload, segments@),
{
    match payload.target {
        None => ConfirmStep { payload, store: false, confirm: None },
        Some(target) => {
            let published: bool = target.phase != RepairTargetPhase::Confirmed && contains_segment(
                segments,
                &target.destination,
            ) && !contains_segment(segments, &target.source);
            if published {
                ConfirmStep {
                    payload: set_phase(payload, RepairTargetPhase::Published),
                    store: true,
                    confirm: Some(target.destination),
                }
            } else {
                ConfirmStep {
                    payload,
                    store: false,
                    confirm: if target.phase == RepairTargetPhase::Published {
                        Some(target.destination)
                    } else {
                        None
                    },
                }
            }
        },
    }
}

/// The checkpoint is about to begin another move: its target is confirmed and
/// must not be used again.
pub open spec fn is_spent(payload: PlacementRepairTaskPayload) -> bool {
    payload.target is Some && payload.target->0.phase == RepairTargetPhase::Confirmed
}

/// Retires a confirmed target; none where there is nothing to retire.
pub fn retire_target(payload: PlacementRepairTaskPayload) -> (r: Option<PlacementRepairTaskPayload>)
    ensures
        r == (if is_spent(payload) {
            Some(without_target(payload))
        } else {
            None
        }),
{
    match payload.target {
        Some(target) => if target.phase == RepairTargetPhase::Confirmed {
            Some(drop_target(payload))
        } else {
            None
        },
        None => None,
    }
}

/// A target that stands in its strip is confirmed and then retired before
/// another fragment is chosen.
pub proof fn law_published_target_is_retired(payload: PlacementRepairTaskPayload, segments: Seq<Segment>)
    requires
        payload.target is Some,
        became_published(payload.target->0, segments),
    ensures
        confirmation(payload, segments).confirm == Some(payload.target->0.destination),
        is_spent(in_phase(confirmation(payload, segments).payload, RepairTargetPhase::Confirmed)),
{
}

/// What a destination for a fragment has to meet.
#[derive(Debug)]
pub struct DestinationRequest {
    pub source_index: usize,
    pub source: Segment,
    pub survivors: Vec<Segment>,
    pub excluded: Vec<DiskId>,
    pub exclude_racks: Vec<u64>,
    pub exclude_nodes: Vec<u64>,
    pub target_disk_group: u64,
}

/// Model of a destination request.
pub struct DestinationModel {
    pub source_index: int,
    pub source: Segment,
    pub survivors: Seq<Segment>,
    pub excluded: Seq<DiskId>,
    pub exclude_racks: Seq<u64>,
    pub exclude_nodes: Seq<u64>,
    pub target_disk_group: u64,
}

impl View for DestinationRequest {
    type V = DestinationModel;

    open spec fn view(&self) -> DestinationModel {
        DestinationModel {
            source_index: self.source_index as int,
            source: self.source,
            survivors: self.survivors@,
            excluded: self.excluded@,
            exclude_racks: self.exclude_racks@,
            exclude_nodes: self.exclude_nodes@,
            target_disk_group: self.target_disk_group,
        }
    }
}

/// What an attempt has to do with a strip.
#[derive(Debug)]
pub enum MoveStep {
    /// The strip is not marked.
    Complete,
    /// The strip is protected as it is: replace it by this one, without mark.
    ClearMarker(ChunkStrip),
    /// No fragment can be moved for now.
    Wait,
    /// Allocate a destination and store it in the checkpoint.
    Allocate(DestinationRequest),
    /// Go on with the move in the checkpoint.
    Continue { source_index: usize, target: RepairTargetCheckpoint },
}

/// Model of a step.
pub enum MoveModel {
    Complete,
    ClearMarker(StripModel),
    Wait,
    Allocate(DestinationModel),
    Continue { source_index: int, target: RepairTargetCheckpoint },
}

impl View for MoveStep {
    type V = MoveModel;

    open spec fn view(&self) -> MoveModel {
        match self {
            MoveStep::Complete => MoveModel::Complete,
            MoveStep::ClearMarker(strip) => MoveModel::ClearMarker(strip@),
            MoveStep::Wait => MoveModel::Wait,
            MoveStep::Allocate(request) => MoveModel::Allocate(request@),
            MoveStep::Continue { source_index, target } => MoveModel::Continue {
                source_index: *source_index as int,
                target: *target,
            },
        }
    }
}

/// The strip without mark, under an assessment.
pub open spec fn unmarked(strip: StripModel, assessment: PlacementAssessment) -> StripModel {
    StripModel {
        placement_assessment: Some(assessment),
        placement_repair_required: false,
        ..strip
    }
}

/// The fragment that an attempt moves: that of the checkpoint where the strip
/// still holds it, else the first one in a domain with too many fragments.
pub open spec fn moving_source(
    snap: &TopologySnapshot,
    segments: Seq<Segment>,
    code_num: u32,
    target: Option<RepairTargetCheckpoint>,
) -> Option<int> {
    if target is Some && segments.contains(target->0.source) {
        Some(first_index(segments, target->0.source))
    } else {
        source_of(snap, segments, code_num)
    }
}

/// Code shards of the strip.
pub open spec fn code_shards(strip: StripModel) -> u32 {
    match strip.strip {
        Some(LayoutModel::Ec { code_num, .. }) => code_num,
        _ => 0,
    }
}

/// What an attempt has to do with a strip, under its current assessment.
pub open spec fn move_step(
    snap: &TopologySnapshot,
    strip: StripModel,
    payload: PlacementRepairTaskPayload,
    current: PlacementAssessment,
) -> MoveModel {
    let segments = strip.segments();
    let code_num = code_shards(strip);
    if !strip.placement_repair_required {
        MoveModel::Complete
    } else if current.all_protected() {
        MoveModel::ClearMarker(unmarked(strip, current))
    } else {
        match moving_source(snap, segments, code_num, payload.target) {
            None => MoveModel::Wait,
            Some(source_index) => match payload.target {
                Some(target) => MoveModel::Continue { source_index, target },
                None => {
                    let places = located_places(snap, segments);
                    let excluded = full_disks(segments, code_num, segments.len() as int);
                    let racks = full_racks(places, code_num, places.len() as int);
                    let nodes = full_nodes(places, code_num, places.len() as int);
                    match best_group_id(
                        snap,
                        segments,
                        excluded,
                        racks,
                        nodes,
                        strip.placement_priority,
                    ) {
                        None => MoveModel::Wait,
                        Some(target_disk_group) => MoveModel::Allocate(
                            DestinationModel {
                                source_index,
                                source: segments[source_index],
                                survivors: segments.remove(source_index),
                                excluded,
                                exclude_racks: racks,
                                exclude_nodes: nodes,
                                target_disk_group,
                            },
                        ),
                    }
                },
            },
        }
    }
}

fn without_index(segments: &Vec<Segment>, index: usize) -> (r: Vec<Segment>)
    requires
        index < segments@.len(),
    ensures
        r@ == segments@.remove(index as int),
{
    let mut out: Vec<Segment> = Vec::new();
    let mut i: usize = 0;
    while i < segments.len()
        invariant
            i <= segments@.len(),
            index < segments@.len(),
            out@.len() == (if i <= index {
                i as int
            } else {
                i - 1
            }),
            forall|j: int|
                0 <= j < out@.len() ==> out@[j] == (if j < index {
                    segments@[j]
                } else {
                    segments@[j + 1]
                }),
        decreases segments.len() - i,
    {
        if i != index {
            out.push(segments[i]);
        }
        i = i + 1;
    }
    assert(out@ =~= segments@.remove(index as int));
    out
}

/// Decides what an attempt has to do with a strip, under its current assessment.
pub fn plan_move(
    snap: &TopologySnapshot,
    strip: &ChunkStrip,
    payload: &PlacementRepairTaskPayload,
    current: PlacementAssessment,
) -> (r: MoveStep)
    ensures
        strip@.strip matches Some(LayoutModel::Ec { .. }) ==> r@ == move_step(
            snap,
            strip@,
            *payload,
            current,
        ),
        !(strip@.strip matches Some(LayoutModel::Ec { .. })) ==> r@ == MoveModel::Complete,
        r matches MoveStep::Continue { source_index, .. } ==> source_index
            < strip@.segments().len(),
        r matches MoveStep::Allocate(request) ==> request.source_index < strip@.segments().len(),
{
    let (segments, code_num) = match &strip.strip {
        Some(Strip::EcStrip(ec)) => (&ec.segments, ec.code_num),
        _ => {
            return MoveStep::Complete;
        },
    };
    if !strip.placement_repair_required {
        return MoveStep::Complete;
    }
    if current.rack_protected && current.node_protected && current.disk_protected {
        let mut next = strip.clone();
        next.placement_assessment = Some(current);
        next.placement_repair_required = false;
        return MoveStep::ClearMarker(next);
    }
    let resumed: Option<usize> = match payload.target {
        Some(target) => position_segment(segments, &target.source),
        None => None,
    };
    proof {
        match resumed {
            Some(at) => {
                let source = payload.target->0.source;
                assert(segments@[at as int] == source);
                assert(first_at(segments@, source, at as int));
                let chosen = first_index(segments@, source);
                assert(first_at(segments@, source, chosen));
                assert(chosen == at);
            },
            None => {},
        }
    }
    let source_index: usize = match resumed {
        Some(at) => at,
        None => match select_source(snap, segments, code_num) {
            Some(at) => at,
            None => {
                return MoveStep::Wait;
            },
        },
    };
    match payload.target {
        Some(target) => {
            return MoveStep::Continue { source_index, target };
        },
        None => {},
    }
    let excluded = over_budget_disks(segments, code_num);
    let (exclude_racks, exclude_nodes) = over_budget_domains(snap, segments, code_num);
    match select_target_disk_group(
        snap,
        segments,
        &excluded,
        &exclude_racks,
        &exclude_nodes,
        strip.placement_priority,
    ) {
        Some(target_disk_group) => MoveStep::Allocate(
            DestinationRequest {
                source_index,
                source: segments[source_index],
                survivors: without_index(segments, source_index),
                excluded,
                exclude_racks,
                exclude_nodes,
                target_disk_group,
            },
        ),
        None => MoveStep::Wait,
    }
}

/// The checkpoint once a destination is allocated.
pub fn record_destination(
    payload: PlacementRepairTaskPayload,
    source: Segment,
    destination: Segment,
) -> (r: PlacementRepairTaskPayload)
    ensures
        r == (PlacementRepairTaskPayload {
            target: Some(
                RepairTargetCheckpoint { source, destination, phase: RepairTargetPhase::Allocated },
            ),
            ..payload
        }),
{
    let mut next = payload;
    next.target =
    Some(RepairTargetCheckpoint { source, destination, phase: RepairTargetPhase::Allocated });
    next
}

/// The strip with a fragment moved, to be assessed.
pub fn moved_strip(strip: &ChunkStrip, source_index: usize, destination: Segment) -> (r: ChunkStrip)
    requires
        source_index < strip@.segments().len(),
    ensures
        r@ == with_segment(strip@, source_index as int, destination),
{
    replace_segment(strip, source_index, destination)
}

/// Decides an assessed move: none where it would weaken the strip, and the
/// destination is discarded; else the strip to publish.
pub fn judge_move(moved: ChunkStrip, current: &PlacementAssessment, next: &PlacementAssessment) -> (r:
    Option<ChunkStrip>)
    ensures
        match r {
            Some(strip) => !weakens(*current, *next) && strip@ == (StripModel {
                placement_assessment: Some(*next),
                placement_repair_required: !next.all_protected(),
                ..moved@
            }),
            None => weakens(*current, *next),
        },
{
    if weakens_protection(current, next) {
        return None;
    }
    let mut strip = moved;
    strip.placement_assessment = Some(*next);
    strip.placement_repair_required = !(next.rack_protected && next.node_protected
        && next.disk_protected);
    Some(strip)
}

/// A move changes one fragment of a strip and keeps all others.
pub proof fn law_move_changes_one_fragment(strip: StripModel, source_index: int, destination: Segment, other: int)
    requires
        0 <= source_index < strip.segments().len(),
        0 <= other < strip.segments().len(),
    ensures
        ({
            let moved = with_segment(strip, source_index, destination);
            &&& moved.segments().len() == strip.segments().len()
            &&& moved.segments()[source_index] == destination
            &&& other != source_index ==> moved.segments()[other] == strip.segments()[other]
        }),
{
}

/// How an attempt ends for its task: complete, waiting, or with an error.
pub fn outcome(result: Result<bool, PlacementRepairError>) -> (r: TaskOutcome)
    ensures
        r@ == (match result {
            Ok(true) => OutcomeModel::Complete,
            Ok(false) => OutcomeModel::Retry {
                delay_ms: RETRY_DELAY_MS,
                error_code: 40,
                error: "topology cannot yet improve placement"@,
            },
            Err(error) => OutcomeModel::Retry {
                delay_ms: RETRY_DELAY_MS,
                error_code: if error@.waits_for_topology() {
                    40
                } else {
                    41
                },
                error: error@.message(),
            },
        }),
{
    match result {
        Ok(true) => TaskOutcome::Complete,
        Ok(false) => TaskOutcome::Retry {
            delay_ms: RETRY_DELAY_MS,
            error_code: 40,
            error: text("topology cannot yet improve placement"),
        },
        Err(error) => TaskOutcome::Retry {
            delay_ms: RETRY_DELAY_MS,
            error_code: if topology_waiting(&error) {
                40
            } else {
                41
            },
            error: error.message(),
        },
    }
}

} // verus!
