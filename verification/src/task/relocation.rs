//! Publication of a copied relocation target.
use vstd::prelude::*;
use crate::arith::{clip_u32, clip_u64, sat_add_u64, usize_to_u32};
use crate::task::executor::{OutcomeModel, TaskOutcome};
use crate::text::text;
use crate::types::{
    copy_segments, position_segment, strip_models, Chunk, ChunkId, ChunkModel, ChunkStrip, EcStrip,
    LayoutModel, MirrorStrip, PlacementAssessment, Segment, Strip, StripModel,
};

verus! {

/// Pause before a relocation is looked at again.
pub const RETRY_DELAY_MS: u64 = 1_000;

/// How far a relocation is.
#[derive(Debug, Clone, Copy, PartialEq, Eq, Structural)]
pub enum RelocateSegmentTaskDisposition {
    Accepted,
    Published,
    Stale,
    Rejected,
}

/// Checkpoint of a relocation.
#[derive(Debug, Clone, Copy, PartialEq, Eq, Structural)]
pub struct RelocateSegmentTaskPayload {
    pub operation_id: ChunkId,
    pub chunk_id: ChunkId,
    pub source: Segment,
    pub target: Segment,
    pub disposition: RelocateSegmentTaskDisposition,
    pub expected_modify_ts: Option<u64>,
    pub strip_index: Option<u32>,
    pub source_free_not_before_ms: u64,
}

/// First strip from `from` on that holds the segment.
pub open spec fn holder_of(strips: Seq<StripModel>, segment: Segment, from: int) -> Option<int>
    decreases strips.len() - from,
{
    if from < 0 || from >= strips.len() {
        None
    } else if strips[from].segments().contains(segment) {
        Some(from)
    } else {
        holder_of(strips, segment, from + 1)
    }
}

/// The segment is at this place, and nowhere before it in its strip.
pub open spec fn first_at(segments: Seq<Segment>, segment: Segment, index: int) -> bool {
    0 <= index < segments.len() && segments[index] == segment && forall|j: int|
        0 <= j < index ==> segments[j] != segment
}

/// Finds the first strip that holds a segment, and its place there.
pub fn find_segment(strips: &[ChunkStrip], segment: &Segment) -> (r: Option<(usize, usize)>)
    ensures
        match r {
            Some((strip, index)) => strip < strips@.len() && holder_of(
                strip_models(strips@),
                *segment,
                0,
            ) == Some(strip as int) && first_at(
                strips@[strip as int]@.segments(),
                *segment,
                index as int,
            ),
            None => holder_of(strip_models(strips@), *segment, 0) is None,
        },
{
    let ghost models = strip_models(strips@);
    let mut i: usize = 0;
    while i < strips.len()
        invariant
            i <= strips.len(),
            models == strip_models(strips@),
            holder_of(models, *segment, 0) == holder_of(models, *segment, i as int),
        decreases strips.len() - i,
    {
        assert(models[i as int] == strips@[i as int]@);
        let segments = strips[i].extract_segments();
        match position_segment(&segments, segment) {
            Some(index) => {
                assert(segments@[index as int] == *segment);
                return Some((i, index));
            },
            None => {},
        }
        i = i + 1;
    }
    None
}

/// The strip with one segment replaced.
pub open spec fn with_segment(strip: StripModel, index: int, target: Segment) -> StripModel {
    StripModel {
        strip: match strip.strip {
            Some(layout) => Some(layout.with_segments(layout.segments().update(index, target))),
            None => None,
        },
        ..strip
    }
}

/// Replaces one segment of a strip.
pub fn replace_segment(strip: &ChunkStrip, index: usize, target: Segment) -> (r: ChunkStrip)
    requires
        index < strip@.segments().len(),
    ensures
        r@ == with_segment(strip@, index as int, target),
{
    let mut next = strip.clone();
    match &strip.strip {
        Some(Strip::MirrorStrip(mirror)) => {
            let mut segments = copy_segments(&mirror.segments);
            segments.set(index, target);
            next.strip = Some(Strip::MirrorStrip(MirrorStrip { segments }));
        },
        Some(Strip::EcStrip(ec)) => {
            let mut segments = copy_segments(&ec.segments);
            segments.set(index, target);
            next.strip =
            Some(
                Strip::EcStrip(
                    EcStrip {
                        data_num: ec.data_num,
                        code_num: ec.code_num,
                        ec_state: ec.ec_state,
                        segments,
                    },
                ),
            );
        },
        None => {},
    }
    next
}

/// Segments that a strip can lose: all copies but one of a mirror, the code
/// shards of an erasure-coded strip. None where it has no layout.
pub open spec fn loss_budget_of(strip: StripModel) -> Option<u32> {
    match strip.strip {
        Some(LayoutModel::Mirror { segments }) => Some(
            if segments.len() == 0 {
                0
            } else {
                clip_u32(segments.len() - 1)
            },
        ),
        Some(LayoutModel::Ec { code_num, .. }) => Some(code_num),
        None => None,
    }
}

/// Segments that a strip can lose.
pub fn loss_budget(strip: &ChunkStrip) -> (r: Option<u32>)
    ensures
        r == loss_budget_of(strip@),
{
    match &strip.strip {
        Some(Strip::MirrorStrip(mirror)) => {
            let n: usize = mirror.segments.len();
            if n == 0 {
                Some(0)
            } else {
                Some(usize_to_u32(n - 1))
            }
        },
        Some(Strip::EcStrip(ec)) => Some(ec.code_num),
        None => None,
    }
}

/// The next placement loses a protection or piles up more fragments.
pub open spec fn weakens(current: PlacementAssessment, next: PlacementAssessment) -> bool {
    (current.rack_protected && !next.rack_protected) || (current.node_protected
        && !next.node_protected) || (current.disk_protected && !next.disk_protected)
        || next.max_fragments_per_rack > current.max_fragments_per_rack
        || next.max_fragments_per_node > current.max_fragments_per_node
        || next.max_fragments_per_disk > current.max_fragments_per_disk
}

/// Whether the next placement is weaker than the current one.
pub fn weakens_protection(current: &PlacementAssessment, next: &PlacementAssessment) -> (r: bool)
    ensures
        r == weakens(*current, *next),
{
    (current.rack_protected && !next.rack_protected) || (current.node_protected
        && !next.node_protected) || (current.disk_protected && !next.disk_protected)
        || next.max_fragments_per_rack > current.max_fragments_per_rack
        || next.max_fragments_per_node > current.max_fragments_per_node
        || next.max_fragments_per_disk > current.max_fragments_per_disk
}

/// A relocation that does not weaken a strip's placement never takes a
/// protection away.
pub proof fn law_accepted_relocation_keeps_protection(
    current: PlacementAssessment,
    next: PlacementAssessment,
)
    requires
        !weakens(current, next),
    ensures
        current.rack_protected ==> next.rack_protected,
        current.node_protected ==> next.node_protected,
        current.disk_protected ==> next.disk_protected,
{
}

/// What a relocation has to do next.
#[derive(Debug)]
pub enum RelocationStep {
    /// Store the checkpoint; the task is complete.
    Finish(RelocateSegmentTaskPayload),
    /// The target is published. Confirm it; store the checkpoint where it
    /// changed; the task is complete once the source may be freed.
    Published { payload: RelocateSegmentTaskPayload, changed: bool, complete: bool },
    /// Assess the strip as it is and with the target in place of the source.
    Assess { strip_index: usize, old_strip: ChunkStrip, replacement: ChunkStrip },
}

/// Model of a relocation step.
pub enum RelocationModel {
    Finish(RelocateSegmentTaskPayload),
    Published { payload: RelocateSegmentTaskPayload, changed: bool, complete: bool },
    Assess { strip_index: int, old_strip: StripModel, replacement: StripModel },
}

impl View for RelocationStep {
    type V = RelocationModel;

    open spec fn view(&self) -> RelocationModel {
        match self {
            RelocationStep::Finish(payload) => RelocationModel::Finish(*payload),
            RelocationStep::Published { payload, changed, complete } => RelocationModel::Published {
                payload: *payload,
                changed: *changed,
                complete: *complete,
            },
            RelocationStep::Assess { strip_index, old_strip, replacement } =>
                RelocationModel::Assess {
                strip_index: *strip_index as int,
                old_strip: old_strip@,
                replacement: replacement@,
            },
        }
    }
}

/// The checkpoint with another disposition.
pub open spec fn disposed(
    payload: RelocateSegmentTaskPayload,
    disposition: RelocateSegmentTaskDisposition,
) -> RelocateSegmentTaskPayload {
    RelocateSegmentTaskPayload { disposition, ..payload }
}

/// Where the source of a relocation stands in its strip.
pub open spec fn first_index(segments: Seq<Segment>, segment: Segment) -> int {
    choose|index: int| first_at(segments, segment, index)
}

/// The step of a relocation whose target is published.
pub open spec fn published_step(
    payload: RelocateSegmentTaskPayload,
    now_ms: u64,
    layout_validity_ms: u64,
) -> RelocationModel {
    let not_before = if payload.source_free_not_before_ms == 0 {
        clip_u64(now_ms + layout_validity_ms)
    } else {
        payload.source_free_not_before_ms
    };
    let waiting = RelocateSegmentTaskPayload { source_free_not_before_ms: not_before, ..payload };
    if now_ms < not_before {
        RelocationModel::Published {
            payload: waiting,
            changed: payload.source_free_not_before_ms == 0,
            complete: false,
        }
    } else {
        RelocationModel::Published {
            payload: disposed(waiting, RelocateSegmentTaskDisposition::Published),
            changed: true,
            complete: true,
        }
    }
}

/// What a relocation has to do next, from the chunk's record.
pub open spec fn relocation_step(
    chunk: Option<ChunkModel>,
    payload: RelocateSegmentTaskPayload,
    now_ms: u64,
    layout_validity_ms: u64,
) -> RelocationModel {
    match chunk {
        None => RelocationModel::Finish(disposed(payload, RelocateSegmentTaskDisposition::Stale)),
        Some(chunk) => {
            let source = holder_of(chunk.strips, payload.source, 0);
            let target = holder_of(chunk.strips, payload.target, 0);
            match (source, target) {
                (None, Some(_)) => published_step(payload, now_ms, layout_validity_ms),
                (None, None) => RelocationModel::Finish(
                    disposed(payload, RelocateSegmentTaskDisposition::Stale),
                ),
                (Some(_), Some(_)) => RelocationModel::Finish(
                    disposed(payload, RelocateSegmentTaskDisposition::Rejected),
                ),
                (Some(at), None) => RelocationModel::Assess {
                    strip_index: at,
                    old_strip: chunk.strips[at],
                    replacement: with_segment(
                        chunk.strips[at],
                        first_index(chunk.strips[at].segments(), payload.source),
                        payload.target,
                    ),
                },
            }
        },
    }
}

/// Decides what a relocation has to do next.
pub fn plan_relocation(
    chunk: Option<&Chunk>,
    payload: RelocateSegmentTaskPayload,
    now_ms: u64,
    layout_validity_ms: u64,
) -> (r: RelocationStep)
    ensures
        r@ == relocation_step(
            match chunk {
                Some(c) => Some(c@),
                None => None,
            },
            payload,
            now_ms,
            layout_validity_ms,
        ),
{
    let chunk = match chunk {
        Some(chunk) => chunk,
        None => {
            let mut next = payload;
            next.disposition = RelocateSegmentTaskDisposition::Stale;
            return RelocationStep::Finish(next);
        },
    };
    let source = find_segment(&chunk.strips, &payload.source);
    let target = find_segment(&chunk.strips, &payload.target);
    match (source, target) {
        (None, Some(_)) => {
            let mut next = payload;
            let changed = next.source_free_not_before_ms == 0;
            if changed {
                next.source_free_not_before_ms = sat_add_u64(now_ms, layout_validity_ms);
            }
            if now_ms < next.source_free_not_before_ms {
                return RelocationStep::Published { payload: next, changed, complete: false };
            }
            next.disposition = RelocateSegmentTaskDisposition::Published;
            RelocationStep::Published { payload: next, changed: true, complete: true }
        },
        (None, None) => {
            let mut next = payload;
            next.disposition = RelocateSegmentTaskDisposition::Stale;
            RelocationStep::Finish(next)
        },
        (Some(_), Some(_)) => {
            let mut next = payload;
            next.disposition = RelocateSegmentTaskDisposition::Rejected;
            RelocationStep::Finish(next)
        },
        (Some((strip_index, index)), None) => {
            let old_strip = chunk.strips[strip_index].clone();
            proof {
                let segments = old_strip@.segments();
                let chosen = first_index(segments, payload.source);
                assert(first_at(segments, payload.source, index as int));
                assert(first_at(segments, payload.source, chosen));
                assert(chosen == index);
                assert(chunk@.strips[strip_index as int] == old_strip@);
            }
            let replacement = replace_segment(&old_strip, index, payload.target);
            RelocationStep::Assess { strip_index, old_strip, replacement }
        },
    }
}

/// What an assessed relocation publishes.
#[derive(Debug)]
pub struct RelocationPublish {
    /// Checkpoint to store before the strip range is replaced.
    pub payload: RelocateSegmentTaskPayload,
    pub strip_index: u32,
    pub replacement: ChunkStrip,
}

/// Decides an assessed relocation: one that would weaken the strip's placement
/// is rejected, any other is published with its assessment.
pub fn judge_relocation(
    payload: RelocateSegmentTaskPayload,
    modify_ts: u64,
    strip_index: usize,
    replacement: ChunkStrip,
    current: &PlacementAssessment,
    next: &PlacementAssessment,
    now_ms: u64,
    layout_validity_ms: u64,
) -> (r: Result<RelocationPublish, RelocateSegmentTaskPayload>)
    ensures
        match r {
            Ok(publish) => !weakens(*current, *next) && publish.strip_index == clip_u32(
                strip_index as int,
            ) && publish.payload == (RelocateSegmentTaskPayload {
                expected_modify_ts: Some(modify_ts),
                strip_index: Some(clip_u32(strip_index as int)),
                source_free_not_before_ms: clip_u64(now_ms + layout_validity_ms),
                ..payload
            }) && publish.replacement@ == (StripModel {
                placement_repair_required: !(next.rack_protected && next.node_protected
                    && next.disk_protected),
                placement_assessment: Some(*next),
                ..replacement@
            }),
            Err(rejected) => weakens(*current, *next) && rejected == disposed(
                payload,
                RelocateSegmentTaskDisposition::Rejected,
            ),
        },
{
    if weakens_protection(current, next) {
        let mut rejected = payload;
        rejected.disposition = RelocateSegmentTaskDisposition::Rejected;
        return Err(rejected);
    }
    let mut replacement = replacement;
    replacement.placement_repair_required = !(next.rack_protected && next.node_protected
        && next.disk_protected);
    replacement.placement_assessment = Some(*next);
    let index: u32 = usize_to_u32(strip_index);
    let mut checkpoint = payload;
    checkpoint.expected_modify_ts = Some(modify_ts);
    checkpoint.strip_index = Some(index);
    checkpoint.source_free_not_before_ms = sat_add_u64(now_ms, layout_validity_ms);
    Ok(RelocationPublish { payload: checkpoint, strip_index: index, replacement })
}

/// How an attempt of a relocation ends: complete, waiting for the grace of its
/// readers, or with the text of an error.
pub fn relocation_outcome(complete: Result<bool, String>) -> (r: TaskOutcome)
    ensures
        r@ == (match complete {
            Ok(true) => OutcomeModel::Complete,
            Ok(false) => OutcomeModel::Retry {
                delay_ms: RETRY_DELAY_MS,
                error_code: 50,
                error: "relocation awaiting publication grace"@,
            },
            Err(error) => OutcomeModel::Retry {
                delay_ms: RETRY_DELAY_MS,
                error_code: 51,
                error: error@,
            },
        }),
{
    match complete {
        Ok(true) => TaskOutcome::Complete,
        Ok(false) => TaskOutcome::Retry {
            delay_ms: RETRY_DELAY_MS,
            error_code: 50,
            error: text("relocation awaiting publication grace"),
        },
        Err(error) => TaskOutcome::Retry { delay_ms: RETRY_DELAY_MS, error_code: 51, error },
    }
}

/// A relocation is not complete before the source may be freed, and its
/// deadline does not move once it is set.
pub proof fn law_source_waits_for_readers(
    payload: RelocateSegmentTaskPayload,
    now_ms: u64,
    layout_validity_ms: u64,
)
    ensures
        published_step(payload, now_ms, layout_validity_ms) matches RelocationModel::Published {
            payload: next,
            complete,
            ..
        } && {
            &&& complete <==> now_ms >= next.source_free_not_before_ms
            &&& payload.source_free_not_before_ms != 0 ==> next.source_free_not_before_ms
                == payload.source_free_not_before_ms
            &&& payload.source_free_not_before_ms == 0 ==> next.source_free_not_before_ms == clip_u64(
                now_ms + layout_validity_ms,
            )
        },
{
}

} // verus!
