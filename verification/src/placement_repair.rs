//! Repair of erasure-coded strips whose fragments are not spread enough.
use vstd::prelude::*;
use crate::allocator::{AllocError, AllocErrorModel};
use crate::arith::{clip_u64, sat_mul_u64};
use crate::lifecycle::error::{LifecycleError, LifecycleErrorModel};
use crate::selector::{contains_id, PlacementError, PlacementErrorModel};
use crate::task::store::{TaskStoreError, TaskStoreErrorModel};
use crate::task::{ChunkTaskState, ChunkTaskValue, TaskKind, TaskModel, TaskVersions};
use crate::text::text;
use crate::topology::capacity::{law_score_asymmetric, law_score_ties_transitive, CapacityScore};
use crate::topology::{DiskGroupEntry, DiskLocation, TopologySnapshot};
use crate::types::{
    contains_disk, strip_models, Chunk, ChunkId, ChunkModel, ChunkStrip, DiskId,
    FailureDomainPriority, LayoutModel, Segment, Strip, StripModel,
};

pub mod attempt;
pub mod effects;
pub mod run;

verus! {

/// Pause before a placement repair is tried again.
pub const RETRY_DELAY_MS: u64 = 5_000;

/// How far the move of a fragment is.
#[derive(Debug, Clone, Copy, PartialEq, Eq, Structural)]
pub enum RepairTargetPhase {
    Allocated,
    Copied,
    Published,
    Confirmed,
}

/// Checkpoint of a fragment's move.
#[derive(Debug, Clone, Copy, PartialEq, Eq, Structural)]
pub struct RepairTargetCheckpoint {
    pub source: Segment,
    pub destination: Segment,
    pub phase: RepairTargetPhase,
}

/// Checkpoint of a placement repair.
#[derive(Debug, Clone, Copy, PartialEq, Eq, Structural)]
pub struct PlacementRepairTaskPayload {
    pub chunk_id: ChunkId,
    pub strip_sequence: u32,
    pub placement_priority: FailureDomainPriority,
    pub repair_rack: bool,
    pub repair_node: bool,
    pub repair_disk: bool,
    pub target: Option<RepairTargetCheckpoint>,
}

/// Placement repair error.
#[derive(Debug)]
pub enum PlacementRepairError {
    Lifecycle(LifecycleError),
    Store(TaskStoreError),
    Payload(String),
}

/// Model of a placement repair error.
pub enum PlacementRepairModel {
    Lifecycle(LifecycleErrorModel),
    Store(TaskStoreErrorModel),
    Payload(Seq<char>),
}

impl View for PlacementRepairError {
    type V = PlacementRepairModel;

    open spec fn view(&self) -> PlacementRepairModel {
        match self {
            PlacementRepairError::Lifecycle(e) => PlacementRepairModel::Lifecycle(e@),
            PlacementRepairError::Store(e) => PlacementRepairModel::Store(e@),
            PlacementRepairError::Payload(m) => PlacementRepairModel::Payload(m@),
        }
    }
}

impl PlacementRepairModel {
    /// Text of the error.
    pub open spec fn message(self) -> Seq<char> {
        match self {
            PlacementRepairModel::Lifecycle(e) => e.message(),
            PlacementRepairModel::Store(e) => e.message(),
            PlacementRepairModel::Payload(m) => "placement repair payload is invalid: "@ + m,
        }
    }

    /// The topology leaves no safe destination for now.
    pub open spec fn waits_for_topology(self) -> bool {
        match self {
            PlacementRepairModel::Lifecycle(
                LifecycleErrorModel::Allocation(AllocErrorModel::Placement(error)),
            ) => match error {
                PlacementErrorModel::InsufficientNodes { .. } => true,
                PlacementErrorModel::InsufficientCapacity => true,
                PlacementErrorModel::NoHealthyDiskGroups => true,
                _ => false,
            },
            _ => false,
        }
    }
}

impl PlacementRepairError {
    /// Text of the error.
    pub fn message(&self) -> (r: String)
        ensures
            r@ == self@.message(),
    {
        match self {
            PlacementRepairError::Lifecycle(e) => e.message(),
            PlacementRepairError::Store(e) => e.message(),
            PlacementRepairError::Payload(m) => {
                let mut out = text("placement repair payload is invalid: ");
                out.append(m.as_str());
                out
            },
        }
    }
}

/// Whether the topology leaves no safe destination for now: that is a condition
/// to wait out, not a failed repair.
pub fn topology_waiting(error: &PlacementRepairError) -> (r: bool)
    ensures
        r == error@.waits_for_topology(),
{
    match error {
        PlacementRepairError::Lifecycle(
            LifecycleError::Allocation(AllocError::Placement(error)),
        ) => match error {
            PlacementError::InsufficientNodes { .. } => true,
            PlacementError::InsufficientCapacity => true,
            PlacementError::NoHealthyDiskGroups => true,
            _ => false,
        },
        _ => false,
    }
}

/// Identity of the task that repairs a strip's placement.
pub open spec fn placement_task(chunk_id: ChunkId, strip_sequence: u32) -> ChunkId {
    ChunkId {
        high: chunk_id.high ^ 0x706c_6163_656d_656eu64,
        low: chunk_id.low ^ (strip_sequence as u64),
    }
}

/// Identity of the task that repairs a strip's placement.
pub fn placement_task_id(chunk_id: ChunkId, strip_sequence: u32) -> (r: ChunkId)
    ensures
        r == placement_task(chunk_id, strip_sequence),
{
    ChunkId {
        high: chunk_id.high ^ 0x706c_6163_656d_656eu64,
        low: chunk_id.low ^ (strip_sequence as u64),
    }
}

/// Identity of the strip replacement of a placement repair.
pub open spec fn placement_operation(chunk_id: ChunkId, strip_sequence: u32) -> ChunkId {
    ChunkId {
        high: chunk_id.high ^ 0x7265_7061_6972_706cu64,
        low: chunk_id.low ^ (strip_sequence as u64),
    }
}

/// Identity of the strip replacement of a placement repair.
pub fn placement_operation_id(chunk_id: ChunkId, strip_sequence: u32) -> (r: ChunkId)
    ensures
        r == placement_operation(chunk_id, strip_sequence),
{
    ChunkId {
        high: chunk_id.high ^ 0x7265_7061_6972_706cu64,
        low: chunk_id.low ^ (strip_sequence as u64),
    }
}

/// Placement repairs of different strips of a chunk have different tasks.
pub proof fn law_placement_tasks_differ(chunk_id: ChunkId, a: u32, b: u32)
    requires
        a != b,
    ensures
        placement_task(chunk_id, a) != placement_task(chunk_id, b),
        placement_operation(chunk_id, a) != placement_operation(chunk_id, b),
{
    let low = chunk_id.low;
    assert(low ^ (a as u64) == low ^ (b as u64) ==> a == b) by (bit_vector);
}

/// The strip is marked and has fragments to move.
pub open spec fn is_marked(strip: StripModel) -> bool {
    strip.placement_repair_required && strip.strip matches Some(LayoutModel::Ec { .. })
}

/// The first checkpoint of a marked strip's repair.
pub open spec fn payload_of(chunk_id: ChunkId, strip: StripModel) -> Result<
    PlacementRepairTaskPayload,
    PlacementRepairModel,
> {
    match strip.placement_assessment {
        None => Err(PlacementRepairModel::Payload("marked strip has no placement assessment"@)),
        Some(assessment) => Ok(
            PlacementRepairTaskPayload {
                chunk_id,
                strip_sequence: strip.strip_sequence,
                placement_priority: strip.placement_priority,
                repair_rack: !assessment.rack_protected,
                repair_node: !assessment.node_protected,
                repair_disk: !assessment.disk_protected,
                target: None,
            },
        ),
    }
}

/// The first checkpoint of a marked strip's repair.
pub fn payload_for_strip(chunk_id: ChunkId, strip: &ChunkStrip) -> (r: Result<
    PlacementRepairTaskPayload,
    PlacementRepairError,
>)
    ensures
        (match r {
            Ok(payload) => Ok::<PlacementRepairTaskPayload, PlacementRepairModel>(payload),
            Err(error) => Err(error@),
        }) == payload_of(chunk_id, strip@),
{
    match strip.placement_assessment {
        None => Err(PlacementRepairError::Payload(text("marked strip has no placement assessment"))),
        Some(assessment) => Ok(
            PlacementRepairTaskPayload {
                chunk_id,
                strip_sequence: strip.strip_sequence,
                placement_priority: strip.placement_priority,
                repair_rack: !assessment.rack_protected,
                repair_node: !assessment.node_protected,
                repair_disk: !assessment.disk_protected,
                target: None,
            },
        ),
    }
}

/// Bytes of a fragment of the strip.
pub open spec fn fragment_bytes(strip: StripModel) -> int {
    match strip.strip {
        Some(LayoutModel::Ec { segments, .. }) => if segments.len() > 0 {
            segments[0].unit_count * strip.unit_kb * 1024
        } else {
            0
        },
        _ => 0,
    }
}

/// A new placement repair task.
pub open spec fn placement_repair_task(
    task_id: ChunkId,
    source_revision: u64,
    strip: StripModel,
    payload: PlacementRepairTaskPayload,
    bytes: Seq<u8>,
    now_ms: u64,
    versions: TaskVersions,
) -> TaskModel {
    TaskModel {
        schema_version: versions.schema,
        task_id,
        partition_id: payload.chunk_id,
        kind: TaskKind::RepairPlacement,
        kind_version: versions.payload,
        state: ChunkTaskState::Pending,
        priority: 254,
        revision: 1,
        operation_id: placement_operation(payload.chunk_id, payload.strip_sequence),
        source_revision,
        created_at_ms: now_ms,
        updated_at_ms: now_ms,
        eligible_at_ms: now_ms,
        attempt: 0,
        max_attempts: u32::MAX,
        estimated_queue_bytes: clip_u64(fragment_bytes(strip) * 2),
        claim_owner: 0,
        claim_generation: 0,
        claim_deadline_ms: 0,
        last_error_code: 0,
        last_error: Seq::empty(),
        payload: bytes,
    }
}

/// Whether the bytes of a fragment can be counted.
pub fn is_countable(strip: &ChunkStrip) -> (r: bool)
    ensures
        r == (fragment_bytes(strip@) <= u64::MAX),
{
    match &strip.strip {
        Some(Strip::EcStrip(ec)) => {
            if ec.segments.len() == 0 {
                return true;
            }
            let units: u64 = ec.segments[0].unit_count as u64;
            let unit_kb: u64 = strip.unit_kb as u64;
            assert(0 <= units * unit_kb <= 0xffff_ffff * 0xffff_ffff) by (nonlinear_arith)
                requires
                    units <= 0xffff_ffff,
                    unit_kb <= 0xffff_ffff,
            ;
            let kb: u64 = units * unit_kb;
            kb <= u64::MAX / 1024
        },
        _ => true,
    }
}

/// A new placement repair task; `bytes` holds the checkpoint. It yields only to
/// the repair of unavailable segments.
pub fn make_task(
    task_id: ChunkId,
    source_revision: u64,
    strip: &ChunkStrip,
    payload: &PlacementRepairTaskPayload,
    bytes: Vec<u8>,
    now_ms: u64,
    versions: TaskVersions,
) -> (r: ChunkTaskValue)
    requires
        fragment_bytes(strip@) <= u64::MAX,
    ensures
        r@ == placement_repair_task(
            task_id,
            source_revision,
            strip@,
            *payload,
            bytes@,
            now_ms,
            versions,
        ),
{
    let moved: u64 = match &strip.strip {
        Some(Strip::EcStrip(ec)) => {
            if ec.segments.len() == 0 {
                0
            } else {
                let units: u64 = ec.segments[0].unit_count as u64;
                let unit_kb: u64 = strip.unit_kb as u64;
                assert(0 <= units * unit_kb <= 0xffff_ffff * 0xffff_ffff) by (nonlinear_arith)
                    requires
                        units <= 0xffff_ffff,
                        unit_kb <= 0xffff_ffff,
                ;
                units * unit_kb * 1024
            }
        },
        _ => 0,
    };
    let last_error = String::new();
    assert(last_error@ =~= Seq::<char>::empty());
    ChunkTaskValue {
        schema_version: versions.schema,
        task_id,
        partition_id: payload.chunk_id,
        kind: TaskKind::RepairPlacement,
        kind_version: versions.payload,
        state: ChunkTaskState::Pending,
        priority: 254,
        revision: 1,
        operation_id: placement_operation_id(payload.chunk_id, payload.strip_sequence),
        source_revision,
        created_at_ms: now_ms,
        updated_at_ms: now_ms,
        eligible_at_ms: now_ms,
        attempt: 0,
        max_attempts: u32::MAX,
        estimated_queue_bytes: sat_mul_u64(moved, 2),
        claim_owner: 0,
        claim_generation: 0,
        claim_deadline_ms: 0,
        last_error_code: 0,
        last_error,
        payload: bytes,
    }
}

/// A strip whose placement is to be repaired.
#[derive(Debug, Clone, Copy, PartialEq, Eq, Structural)]
pub struct PlacementPlan {
    pub strip_index: usize,
    pub task_id: ChunkId,
    pub payload: PlacementRepairTaskPayload,
}

/// What admission makes of a chunk: the repairs of its marked strips up to the
/// first that cannot be repaired.
#[derive(Debug)]
pub struct PlacementAdmission {
    pub plans: Vec<PlacementPlan>,
    pub error: Option<PlacementRepairError>,
}

/// The repairs of the first `n` strips, up to the first that cannot be repaired.
pub open spec fn admitted(chunk_id: ChunkId, strips: Seq<StripModel>, n: int) -> (
    Seq<PlacementPlan>,
    Option<PlacementRepairModel>,
)
    decreases n,
{
    if n <= 0 {
        (Seq::empty(), None)
    } else {
        let (front, error) = admitted(chunk_id, strips, n - 1);
        let strip = strips[n - 1];
        if error is Some || !is_marked(strip) {
            (front, error)
        } else {
            match payload_of(chunk_id, strip) {
                Ok(payload) => (
                    front.push(
                        PlacementPlan {
                            strip_index: (n - 1) as usize,
                            task_id: placement_task(chunk_id, strip.strip_sequence),
                            payload,
                        },
                    ),
                    None,
                ),
                Err(error) => (front, Some(error)),
            }
        }
    }
}

/// What admission makes of a chunk.
pub open spec fn admission_of(chunk: ChunkModel) -> (Seq<PlacementPlan>, Option<PlacementRepairModel>) {
    match chunk.id {
        None => (Seq::empty(), Some(PlacementRepairModel::Payload("chunk has no ID"@))),
        Some(chunk_id) => admitted(chunk_id, chunk.strips, chunk.strips.len() as int),
    }
}

/// Admits one task per marked strip.
pub fn admit_placement_chunk(chunk: &Chunk) -> (r: PlacementAdmission)
    ensures
        (
            r.plans@,
            (match r.error {
                Some(error) => Some(error@),
                None => None,
            }),
        ) == admission_of(chunk@),
{
    let mut plans: Vec<PlacementPlan> = Vec::new();
    let chunk_id = match chunk.id {
        Some(id) => id,
        None => {
            assert(plans@ =~= Seq::empty());
            return PlacementAdmission {
                plans,
                error: Some(PlacementRepairError::Payload(text("chunk has no ID"))),
            };
        },
    };
    let ghost models = chunk@.strips;
    let n: usize = chunk.strips.len();
    let mut i: usize = 0;
    assert(plans@ =~= Seq::empty());
    while i < n
        invariant
            i <= n,
            n == chunk.strips@.len(),
            models == strip_models(chunk.strips@),
            models == chunk@.strips,
            chunk.id == Some(chunk_id),
            admitted(chunk_id, models, i as int) == (plans@, None::<PlacementRepairModel>),
        decreases n - i,
    {
        let strip = &chunk.strips[i];
        assert(models[i as int] == strip@);
        let marked: bool = strip.placement_repair_required && match &strip.strip {
            Some(Strip::EcStrip(_)) => true,
            _ => false,
        };
        if marked {
            match payload_for_strip(chunk_id, strip) {
                Ok(payload) => {
                    plans.push(
                        PlacementPlan {
                            strip_index: i,
                            task_id: placement_task_id(chunk_id, strip.strip_sequence),
                            payload,
                        },
                    );
                },
                Err(error) => {
                    proof {
                        lemma_admission_stops(chunk_id, models, i + 1, n as int);
                    }
                    return PlacementAdmission { plans, error: Some(error) };
                },
            }
        }
        i = i + 1;
    }
    PlacementAdmission { plans, error: None }
}

proof fn lemma_admission_stops(chunk_id: ChunkId, strips: Seq<StripModel>, n: int, m: int)
    requires
        0 <= n <= m,
        admitted(chunk_id, strips, n).1 is Some,
    ensures
        admitted(chunk_id, strips, m) == admitted(chunk_id, strips, n),
    decreases m - n,
{
    if n < m {
        lemma_admission_stops(chunk_id, strips, n, m - 1);
    }
}

/// Where the located ones of a run of segments stand, in order.
pub open spec fn located_places(snap: &TopologySnapshot, segments: Seq<Segment>) -> Seq<DiskLocation>
    decreases segments.len(),
{
    if segments.len() == 0 {
        Seq::empty()
    } else {
        let front = located_places(snap, segments.drop_last());
        match place_of(snap, segments.last()) {
            Some(place) => front.push(place),
            None => front,
        }
    }
}

/// Where a segment stands, if its disk is known.
pub open spec fn place_of(snap: &TopologySnapshot, segment: Segment) -> Option<DiskLocation> {
    match segment.disk_id {
        Some(disk) => snap.spec_disk_location(disk),
        None => None,
    }
}

fn locate(snap: &TopologySnapshot, segment: &Segment) -> (r: Option<DiskLocation>)
    ensures
        r == place_of(snap, *segment),
{
    match segment.disk_id {
        Some(disk) => snap.disk_location(disk),
        None => None,
    }
}

/// Every segment's place is known.
pub open spec fn all_placed(snap: &TopologySnapshot, segments: Seq<Segment>) -> bool {
    forall|i: int| 0 <= i < segments.len() ==> place_of(snap, #[trigger] segments[i]) is Some
}

fn locate_all(snap: &TopologySnapshot, segments: &[Segment]) -> (r: (Vec<DiskLocation>, bool))
    ensures
        r.0@ == located_places(snap, segments@),
        r.0@.len() <= segments@.len(),
        r.1 == all_placed(snap, segments@),
{
    let mut places: Vec<DiskLocation> = Vec::new();
    let mut complete = true;
    let mut i: usize = 0;
    while i < segments.len()
        invariant
            i <= segments.len(),
            places@.len() <= i,
            places@ == located_places(snap, segments@.take(i as int)),
            complete == forall|j: int| 0 <= j < i ==> place_of(snap, #[trigger] segments@[j]) is Some,
        decreases segments.len() - i,
    {
        proof {
            assert(segments@.take(i + 1).drop_last() =~= segments@.take(i as int));
            assert(segments@.take(i + 1).last() == segments@[i as int]);
        }
        match locate(snap, &segments[i]) {
            Some(place) => {
                places.push(place);
            },
            None => {
                assert(place_of(snap, segments@[i as int]) is None);
                complete = false;
            },
        }
        i = i + 1;
    }
    assert(segments@.take(i as int) =~= segments@);
    (places, complete)
}

/// Fragments in a rack.
pub open spec fn in_rack(places: Seq<DiskLocation>, rack_id: u64) -> nat
    decreases places.len(),
{
    if places.len() == 0 {
        0
    } else {
        in_rack(places.drop_last(), rack_id) + (if places.last().rack_id == rack_id {
            1nat
        } else {
            0nat
        })
    }
}

/// Fragments on a node.
pub open spec fn on_node(places: Seq<DiskLocation>, node_id: u64) -> nat
    decreases places.len(),
{
    if places.len() == 0 {
        0
    } else {
        on_node(places.drop_last(), node_id) + (if places.last().node_id == node_id {
            1nat
        } else {
            0nat
        })
    }
}

/// Fragments in a disk-group.
pub open spec fn in_group(places: Seq<DiskLocation>, dg_id: u64) -> nat
    decreases places.len(),
{
    if places.len() == 0 {
        0
    } else {
        in_group(places.drop_last(), dg_id) + (if places.last().disk_group_id == dg_id {
            1nat
        } else {
            0nat
        })
    }
}

/// Fragments on a disk.
pub open spec fn on_disk(segments: Seq<Segment>, disk: DiskId) -> nat
    decreases segments.len(),
{
    if segments.len() == 0 {
        0
    } else {
        on_disk(segments.drop_last(), disk) + (if segments.last().disk_id == Some(disk) {
            1nat
        } else {
            0nat
        })
    }
}

fn count_places(places: &[DiskLocation], place: &DiskLocation) -> (r: (usize, usize, usize))
    ensures
        r.0 == in_rack(places@, place.rack_id),
        r.1 == on_node(places@, place.node_id),
        r.2 == in_group(places@, place.disk_group_id),
{
    let mut rack: usize = 0;
    let mut node: usize = 0;
    let mut group: usize = 0;
    let mut i: usize = 0;
    while i < places.len()
        invariant
            i <= places.len(),
            rack <= i,
            node <= i,
            group <= i,
            rack == in_rack(places@.take(i as int), place.rack_id),
            node == on_node(places@.take(i as int), place.node_id),
            group == in_group(places@.take(i as int), place.disk_group_id),
        decreases places.len() - i,
    {
        proof {
            assert(places@.take(i + 1).drop_last() =~= places@.take(i as int));
            assert(places@.take(i + 1).last() == places@[i as int]);
        }
        if places[i].rack_id == place.rack_id {
            rack = rack + 1;
        }
        if places[i].node_id == place.node_id {
            node = node + 1;
        }
        if places[i].disk_group_id == place.disk_group_id {
            group = group + 1;
        }
        i = i + 1;
    }
    assert(places@.take(i as int) =~= places@);
    (rack, node, group)
}

fn count_disk(segments: &[Segment], disk: DiskId) -> (r: usize)
    ensures
        r == on_disk(segments@, disk),
{
    let mut count: usize = 0;
    let mut i: usize = 0;
    while i < segments.len()
        invariant
            i <= segments.len(),
            count <= i,
            count == on_disk(segments@.take(i as int), disk),
        decreases segments.len() - i,
    {
        proof {
            assert(segments@.take(i + 1).drop_last() =~= segments@.take(i as int));
            assert(segments@.take(i + 1).last() == segments@[i as int]);
        }
        if segments[i].disk_id == Some(disk) {
            count = count + 1;
        }
        i = i + 1;
    }
    assert(segments@.take(i as int) =~= segments@);
    count
}

/// A domain of the segment holds more fragments than the strip can lose.
pub open spec fn over_budget(
    snap: &TopologySnapshot,
    segments: Seq<Segment>,
    loss_budget: u32,
    segment: Segment,
) -> bool {
    let places = located_places(snap, segments);
    match place_of(snap, segment) {
        Some(place) => in_rack(places, place.rack_id) > loss_budget || on_node(
            places,
            place.node_id,
        ) > loss_budget || on_disk(segments, segment.disk_id->0) > loss_budget,
        None => false,
    }
}

/// First segment from `from` on that stands in a domain with too many fragments.
pub open spec fn first_over_budget(
    snap: &TopologySnapshot,
    segments: Seq<Segment>,
    loss_budget: u32,
    from: int,
) -> Option<int>
    decreases segments.len() - from,
{
    if from < 0 || from >= segments.len() {
        None
    } else if over_budget(snap, segments, loss_budget, segments[from]) {
        Some(from)
    } else {
        first_over_budget(snap, segments, loss_budget, from + 1)
    }
}

/// The fragment to move: the first in a domain with too many fragments, where
/// every fragment's place is known.
pub open spec fn source_of(snap: &TopologySnapshot, segments: Seq<Segment>, loss_budget: u32) -> Option<
    int,
> {
    if all_placed(snap, segments) {
        first_over_budget(snap, segments, loss_budget, 0)
    } else {
        None
    }
}

/// The fragment to move.
pub fn select_source(snap: &TopologySnapshot, segments: &[Segment], loss_budget: u32) -> (r: Option<
    usize,
>)
    ensures
        (match r {
            Some(i) => Some(i as int),
            None => None,
        }) == source_of(snap, segments@, loss_budget),
        r matches Some(i) ==> i < segments@.len(),
{
    let (places, complete) = locate_all(snap, segments);
    if !complete {
        return None;
    }
    let budget: u64 = loss_budget as u64;
    let mut i: usize = 0;
    while i < segments.len()
        invariant
            i <= segments.len(),
            budget == loss_budget,
            places@ == located_places(snap, segments@),
            first_over_budget(snap, segments@, loss_budget, 0) == first_over_budget(
                snap,
                segments@,
                loss_budget,
                i as int,
            ),
            all_placed(snap, segments@),
        decreases segments.len() - i,
    {
        match locate(snap, &segments[i]) {
            Some(place) => {
                let (rack, node, _) = count_places(&places, &place);
                let disk: usize = match segments[i].disk_id {
                    Some(disk) => count_disk(segments, disk),
                    None => 0,
                };
                if rack as u64 > budget || node as u64 > budget || disk as u64 > budget {
                    return Some(i);
                }
            },
            None => {},
        }
        i = i + 1;
    }
    None
}

/// Racks with more fragments than the strip can lose, each once, among the
/// first `n` places.
pub open spec fn full_racks(places: Seq<DiskLocation>, loss_budget: u32, n: int) -> Seq<u64>
    decreases n,
{
    if n <= 0 {
        Seq::empty()
    } else {
        let front = full_racks(places, loss_budget, n - 1);
        let id = places[n - 1].rack_id;
        if in_rack(places, id) > loss_budget && !front.contains(id) {
            front.push(id)
        } else {
            front
        }
    }
}

/// Nodes with more fragments than the strip can lose, each once, among the
/// first `n` places.
pub open spec fn full_nodes(places: Seq<DiskLocation>, loss_budget: u32, n: int) -> Seq<u64>
    decreases n,
{
    if n <= 0 {
        Seq::empty()
    } else {
        let front = full_nodes(places, loss_budget, n - 1);
        let id = places[n - 1].node_id;
        if on_node(places, id) > loss_budget && !front.contains(id) {
            front.push(id)
        } else {
            front
        }
    }
}

/// Racks and nodes with more fragments than the strip can lose.
pub fn over_budget_domains(snap: &TopologySnapshot, segments: &[Segment], loss_budget: u32) -> (r: (
    Vec<u64>,
    Vec<u64>,
))
    ensures
        ({
            let places = located_places(snap, segments@);
            &&& r.0@ == full_racks(places, loss_budget, places.len() as int)
            &&& r.1@ == full_nodes(places, loss_budget, places.len() as int)
        }),
{
    let (places, _) = locate_all(snap, segments);
    let budget: u64 = loss_budget as u64;
    let mut racks: Vec<u64> = Vec::new();
    let mut nodes: Vec<u64> = Vec::new();
    let mut i: usize = 0;
    while i < places.len()
        invariant
            i <= places.len(),
            budget == loss_budget,
            racks@ == full_racks(places@, loss_budget, i as int),
            nodes@ == full_nodes(places@, loss_budget, i as int),
        decreases places.len() - i,
    {
        let place = places[i];
        let (rack, node, _) = count_places(&places, &place);
        if rack as u64 > budget && !contains_id(&racks, place.rack_id) {
            racks.push(place.rack_id);
        }
        if node as u64 > budget && !contains_id(&nodes, place.node_id) {
            nodes.push(place.node_id);
        }
        i = i + 1;
    }
    (racks, nodes)
}

/// Disks that hold all the fragments that the strip can lose, or more, each
/// once, among the first `n` segments.
pub open spec fn full_disks(segments: Seq<Segment>, loss_budget: u32, n: int) -> Seq<DiskId>
    decreases n,
{
    if n <= 0 {
        Seq::empty()
    } else {
        let front = full_disks(segments, loss_budget, n - 1);
        match segments[n - 1].disk_id {
            Some(disk) => if on_disk(segments, disk) >= loss_budget && !front.contains(disk) {
                front.push(disk)
            } else {
                front
            },
            None => front,
        }
    }
}

/// Disks that can take no further fragment of the strip.
pub fn over_budget_disks(segments: &[Segment], loss_budget: u32) -> (r: Vec<DiskId>)
    ensures
        r@ == full_disks(segments@, loss_budget, segments@.len() as int),
{
    let budget: u64 = loss_budget as u64;
    let mut disks: Vec<DiskId> = Vec::new();
    let mut i: usize = 0;
    while i < segments.len()
        invariant
            i <= segments.len(),
            budget == loss_budget,
            disks@ == full_disks(segments@, loss_budget, i as int),
        decreases segments.len() - i,
    {
        match segments[i].disk_id {
            Some(disk) => {
                let count: usize = count_disk(segments, disk);
                if count as u64 >= budget && !contains_disk(&disks, disk) {
                    disks.push(disk);
                }
            },
            None => {},
        }
        i = i + 1;
    }
    disks
}

/// How well a disk-group suits as a destination: fragments of the strip in the
/// prior domain, in the other domain and in the group, then utilization.
#[derive(Debug, Clone, Copy, PartialEq, Eq, Structural)]
pub struct GroupRank {
    pub prior: usize,
    pub other: usize,
    pub group: usize,
    pub score: CapacityScore,
    pub node_id: u64,
    pub dg_id: u64,
}

/// `a` suits better than `b`.
pub open spec fn suits_better(a: GroupRank, b: GroupRank) -> bool {
    a.prior < b.prior || (a.prior == b.prior && (a.other < b.other || (a.other == b.other && (a.group
        < b.group || (a.group == b.group && (a.score.below(b.score) || (!b.score.below(a.score) && (
    a.node_id < b.node_id || (a.node_id == b.node_id && a.dg_id < b.dg_id)))))))))
}

fn is_better(a: &GroupRank, b: &GroupRank) -> (r: bool)
    ensures
        r == suits_better(*a, *b),
{
    if a.prior != b.prior {
        return a.prior < b.prior;
    }
    if a.other != b.other {
        return a.other < b.other;
    }
    if a.group != b.group {
        return a.group < b.group;
    }
    if a.score.is_below(&b.score) {
        return true;
    }
    if b.score.is_below(&a.score) {
        return false;
    }
    if a.node_id != b.node_id {
        return a.node_id < b.node_id;
    }
    a.dg_id < b.dg_id
}

proof fn lemma_better_transitive(a: GroupRank, b: GroupRank, c: GroupRank)
    requires
        a.score.well_formed(),
        b.score.well_formed(),
        c.score.well_formed(),
        suits_better(a, b),
        suits_better(b, c),
    ensures
        suits_better(a, c),
{
    if a.prior == c.prior && a.other == c.other && a.group == c.group {
        law_score_asymmetric(a.score, b.score);
        law_score_asymmetric(b.score, c.score);
        if c.score.below(a.score) {
            if !c.score.below(b.score) {
                law_score_asymmetric(a.score, b.score);
                if !b.score.below(a.score) {
                    law_score_ties_transitive(c.score, b.score, a.score);
                }
            }
        }
        if !a.score.below(c.score) {
            if !c.score.below(b.score) && !b.score.below(a.score) {
                if a.score.below(b.score) {
                    if !a.score.below(c.score) {
                        law_score_ties_transitive(a.score, c.score, b.score);
                    }
                }
                if b.score.below(c.score) {
                    law_score_ties_transitive(b.score, a.score, c.score);
                }
            }
        }
    }
}

/// The rank of a disk-group for a strip's next fragment.
pub open spec fn rank_of(
    snap: &TopologySnapshot,
    places: Seq<DiskLocation>,
    group: DiskGroupEntry,
    priority: FailureDomainPriority,
) -> GroupRank {
    let rack = in_rack(places, group.rack_id) as usize;
    let node = on_node(places, group.node_id) as usize;
    let (prior, other) = if priority == FailureDomainPriority::NodeFirst {
        (node, rack)
    } else {
        (rack, node)
    };
    GroupRank {
        prior,
        other,
        group: in_group(places, group.dg_id) as usize,
        score: snap.spec_capacity_score(group.dg_id, 0),
        node_id: group.node_id,
        dg_id: group.dg_id,
    }
}

/// The disk-group may take a fragment: it stands in no excluded domain and has
/// a disk that is not excluded.
pub open spec fn may_take(
    group: DiskGroupEntry,
    excluded_disks: Seq<DiskId>,
    exclude_racks: Seq<u64>,
    exclude_nodes: Seq<u64>,
) -> bool {
    &&& !exclude_racks.contains(group.rack_id)
    &&& !exclude_nodes.contains(group.node_id)
    &&& exists|k: int|
        0 <= k < group.value.disk_ids@.len() && !excluded_disks.contains(
            #[trigger] group.value.disk_ids@[k],
        )
}

fn takes(
    group: &DiskGroupEntry,
    excluded_disks: &[DiskId],
    exclude_racks: &[u64],
    exclude_nodes: &[u64],
) -> (r: bool)
    ensures
        r == may_take(*group, excluded_disks@, exclude_racks@, exclude_nodes@),
{
    if contains_id(exclude_racks, group.rack_id) || contains_id(exclude_nodes, group.node_id) {
        return false;
    }
    let disks = &group.value.disk_ids;
    let mut i: usize = 0;
    while i < disks.len()
        invariant
            i <= disks.len(),
            disks@ == group.value.disk_ids@,
            !exclude_racks@.contains(group.rack_id),
            !exclude_nodes@.contains(group.node_id),
            forall|j: int| 0 <= j < i ==> excluded_disks@.contains(#[trigger] disks@[j]),
        decreases disks.len() - i,
    {
        if !contains_disk(excluded_disks, disks[i]) {
            assert(!excluded_disks@.contains(group.value.disk_ids@[i as int]));
            return true;
        }
        i = i + 1;
    }
    false
}

/// The disk-group of the snapshot's healthy ones that may take a fragment and
/// than which none suits better.
pub open spec fn is_best_group(
    snap: &TopologySnapshot,
    segments: Seq<Segment>,
    excluded_disks: Seq<DiskId>,
    exclude_racks: Seq<u64>,
    exclude_nodes: Seq<u64>,
    priority: FailureDomainPriority,
    at: int,
) -> bool {
    let groups = snap.healthy();
    let places = located_places(snap, segments);
    &&& 0 <= at < groups.len()
    &&& may_take(groups[at], excluded_disks, exclude_racks, exclude_nodes)
    &&& forall|j: int|
        0 <= j < groups.len() && may_take(
            #[trigger] groups[j],
            excluded_disks,
            exclude_racks,
            exclude_nodes,
        ) ==> !suits_better(
            rank_of(snap, places, groups[j], priority),
            rank_of(snap, places, groups[at], priority),
        )
}

/// The disk-group for a strip's next fragment: the best of the healthy ones that
/// may take it, where every fragment's place is known.
pub open spec fn best_group_id(
    snap: &TopologySnapshot,
    segments: Seq<Segment>,
    excluded_disks: Seq<DiskId>,
    exclude_racks: Seq<u64>,
    exclude_nodes: Seq<u64>,
    priority: FailureDomainPriority,
) -> Option<u64> {
    if all_placed(snap, segments) && exists|at: int| #[trigger]
        is_best_group(
            snap,
            segments,
            excluded_disks,
            exclude_racks,
            exclude_nodes,
            priority,
            at,
        ) {
        let at = choose|at: int| #[trigger]
            is_best_group(
                snap,
                segments,
                excluded_disks,
                exclude_racks,
                exclude_nodes,
                priority,
                at,
            );
        Some(snap.healthy()[at].dg_id)
    } else {
        None
    }
}

/// Of the disk-groups that may take a fragment no two are both best.
pub proof fn law_best_group_is_unique(
    snap: &TopologySnapshot,
    segments: Seq<Segment>,
    excluded_disks: Seq<DiskId>,
    exclude_racks: Seq<u64>,
    exclude_nodes: Seq<u64>,
    priority: FailureDomainPriority,
    a: int,
    b: int,
)
    requires
        is_best_group(
            snap,
            segments,
            excluded_disks,
            exclude_racks,
            exclude_nodes,
            priority,
            a,
        ),
        is_best_group(
            snap,
            segments,
            excluded_disks,
            exclude_racks,
            exclude_nodes,
            priority,
            b,
        ),
    ensures
        snap.healthy()[a].dg_id == snap.healthy()[b].dg_id,
{
    let places = located_places(snap, segments);
    let ra = rank_of(snap, places, snap.healthy()[a], priority);
    let rb = rank_of(snap, places, snap.healthy()[b], priority);
    if ra.dg_id != rb.dg_id {
        assert(suits_better(ra, rb) || suits_better(rb, ra));
    }
}

proof fn lemma_best_group_of(
    snap: &TopologySnapshot,
    segments: Seq<Segment>,
    excluded_disks: Seq<DiskId>,
    exclude_racks: Seq<u64>,
    exclude_nodes: Seq<u64>,
    priority: FailureDomainPriority,
    n: int,
    some: int,
) -> (at: int)
    requires
        0 <= some < n <= snap.healthy().len(),
        may_take(snap.healthy()[some], excluded_disks, exclude_racks, exclude_nodes),
    ensures
        0 <= at < n,
        may_take(snap.healthy()[at], excluded_disks, exclude_racks, exclude_nodes),
        forall|j: int|
            0 <= j < n && may_take(
                #[trigger] snap.healthy()[j],
                excluded_disks,
                exclude_racks,
                exclude_nodes,
            ) ==> !suits_better(
                rank_of(snap, located_places(snap, segments), snap.healthy()[j], priority),
                rank_of(snap, located_places(snap, segments), snap.healthy()[at], priority),
            ),
    decreases n,
{
    let groups = snap.healthy();
    let places = located_places(snap, segments);
    let last = n - 1;
    let own = rank_of(snap, places, groups[last], priority);
    lemma_score_well_formed(snap, groups[last].dg_id);
    law_score_asymmetric(own.score, own.score);
    let others = exists|k: int|
        0 <= k < last && may_take(
            #[trigger] groups[k],
            excluded_disks,
            exclude_racks,
            exclude_nodes,
        );
    if !others {
        assert(some == last);
        last
    } else {
        let k = choose|k: int|
            0 <= k < last && may_take(
                #[trigger] groups[k],
                excluded_disks,
                exclude_racks,
                exclude_nodes,
            );
        let before = lemma_best_group_of(
            snap,
            segments,
            excluded_disks,
            exclude_racks,
            exclude_nodes,
            priority,
            last,
            k,
        );
        let best = rank_of(snap, places, groups[before], priority);
        if may_take(groups[last], excluded_disks, exclude_racks, exclude_nodes) && suits_better(
            own,
            best,
        ) {
            assert forall|j: int|
                0 <= j < n && may_take(
                    #[trigger] groups[j],
                    excluded_disks,
                    exclude_racks,
                    exclude_nodes,
                ) implies !suits_better(rank_of(snap, places, groups[j], priority), own) by {
                let rank = rank_of(snap, places, groups[j], priority);
                if j < last && suits_better(rank, own) {
                    lemma_score_well_formed(snap, groups[j].dg_id);
                    lemma_score_well_formed(snap, groups[before].dg_id);
                    lemma_better_transitive(rank, own, best);
                }
            }
            last
        } else {
            before
        }
    }
}

proof fn lemma_score_well_formed(snap: &TopologySnapshot, dg_id: u64)
    ensures
        snap.spec_capacity_score(dg_id, 0).well_formed(),
{
}

/// Where some healthy disk-group may take a fragment, one of those is the best.
pub proof fn law_best_group_exists(
    snap: &TopologySnapshot,
    segments: Seq<Segment>,
    excluded_disks: Seq<DiskId>,
    exclude_racks: Seq<u64>,
    exclude_nodes: Seq<u64>,
    priority: FailureDomainPriority,
    some: int,
) -> (at: int)
    requires
        0 <= some < snap.healthy().len(),
        may_take(snap.healthy()[some], excluded_disks, exclude_racks, exclude_nodes),
    ensures
        is_best_group(
            snap,
            segments,
            excluded_disks,
            exclude_racks,
            exclude_nodes,
            priority,
            at,
        ),
        all_placed(snap, segments) ==> best_group_id(
            snap,
            segments,
            excluded_disks,
            exclude_racks,
            exclude_nodes,
            priority,
        ) == Some(snap.healthy()[at].dg_id),
{
    let at = lemma_best_group_of(
        snap,
        segments,
        excluded_disks,
        exclude_racks,
        exclude_nodes,
        priority,
        snap.healthy().len() as int,
        some,
    );
    assert(is_best_group(
        snap,
        segments,
        excluded_disks,
        exclude_racks,
        exclude_nodes,
        priority,
        at,
    ));
    let chosen = choose|b: int| #[trigger]
        is_best_group(
            snap,
            segments,
            excluded_disks,
            exclude_racks,
            exclude_nodes,
            priority,
            b,
        );
    law_best_group_is_unique(
        snap,
        segments,
        excluded_disks,
        exclude_racks,
        exclude_nodes,
        priority,
        at,
        chosen,
    );
    at
}

/// The disk-group for a strip's next fragment.
pub fn select_target_disk_group(
    snap: &TopologySnapshot,
    segments: &[Segment],
    excluded_disks: &[DiskId],
    exclude_racks: &[u64],
    exclude_nodes: &[u64],
    priority: FailureDomainPriority,
) -> (r: Option<u64>)
    ensures
        r == best_group_id(
            snap,
            segments@,
            excluded_disks@,
            exclude_racks@,
            exclude_nodes@,
            priority,
        ),
{
    let (places, complete) = locate_all(snap, segments);
    if !complete {
        return None;
    }
    let groups = snap.healthy_disk_groups();
    let mut best: Option<(GroupRank, usize)> = None;
    let mut i: usize = 0;
    while i < groups.len()
        invariant
            i <= groups.len(),
            groups@.len() == snap.healthy().len(),
            forall|j: int| 0 <= j < groups@.len() ==> *(#[trigger] groups@[j]) == snap.healthy()[j],
            places@ == located_places(snap, segments@),
            match best {
                None => forall|j: int|
                    0 <= j < i ==> !may_take(
                        #[trigger] snap.healthy()[j],
                        excluded_disks@,
                        exclude_racks@,
                        exclude_nodes@,
                    ),
                Some((rank, at)) => {
                    &&& at < i
                    &&& rank == rank_of(snap, places@, snap.healthy()[at as int], priority)
                    &&& rank.score.well_formed()
                    &&& may_take(
                        snap.healthy()[at as int],
                        excluded_disks@,
                        exclude_racks@,
                        exclude_nodes@,
                    )
                    &&& forall|j: int|
                        0 <= j < i && may_take(
                            #[trigger] snap.healthy()[j],
                            excluded_disks@,
                            exclude_racks@,
                            exclude_nodes@,
                        ) ==> !suits_better(
                            rank_of(snap, places@, snap.healthy()[j], priority),
                            rank,
                        )
                },
            },
        decreases groups.len() - i,
    {
        let group = groups[i];
        assert(*group == snap.healthy()[i as int]);
        if takes(group, excluded_disks, exclude_racks, exclude_nodes) {
            let (rack, node, in_dg) = count_places(&places, &group.place());
            let (prior, other) = match priority {
                FailureDomainPriority::NodeFirst => (node, rack),
                FailureDomainPriority::RackFirst => (rack, node),
            };
            let rank = GroupRank {
                prior,
                other,
                group: in_dg,
                score: snap.capacity_score(group.dg_id, 0),
                node_id: group.node_id,
                dg_id: group.dg_id,
            };
            assert(rank == rank_of(snap, places@, *group, priority));
            proof {
                law_score_asymmetric(rank.score, rank.score);
            }
            match best {
                None => {
                    best = Some((rank, i));
                },
                Some((current, at)) => {
                    if is_better(&rank, &current) {
                        proof {
                            assert forall|j: int|
                                0 <= j < i + 1 && may_take(
                                    #[trigger] snap.healthy()[j],
                                    excluded_disks@,
                                    exclude_racks@,
                                    exclude_nodes@,
                                ) implies !suits_better(
                                rank_of(snap, places@, snap.healthy()[j], priority),
                                rank,
                            ) by {
                                let other = rank_of(snap, places@, snap.healthy()[j], priority);
                                if j < i && suits_better(other, rank) {
                                    lemma_better_transitive(other, rank, current);
                                }
                            }
                        }
                        best = Some((rank, i));
                    }
                },
            }
        }
        i = i + 1;
    }
    match best {
        Some((rank, at)) => {
            assert(is_best_group(
                snap,
                segments@,
                excluded_disks@,
                exclude_racks@,
                exclude_nodes@,
                priority,
                at as int,
            ));
            proof {
                let chosen = choose|k: int| #[trigger]
                    is_best_group(
                        snap,
                        segments@,
                        excluded_disks@,
                        exclude_racks@,
                        exclude_nodes@,
                        priority,
                        k,
                    );
                law_best_group_is_unique(
                    snap,
                    segments@,
                    excluded_disks@,
                    exclude_racks@,
                    exclude_nodes@,
                    priority,
                    chosen,
                    at as int,
                );
            }
            Some(rank.dg_id)
        },
        None => None,
    }
}

} // verus!
