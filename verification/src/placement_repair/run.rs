//! The order of work of a placement repair attempt.
use vstd::prelude::*;
use crate::arith::{clip_u32, clip_u64, sat_mul_u64, usize_to_u32};
use crate::lifecycle::handler::strip_with_sequence;
use crate::lifecycle::replace::{ExchangeModel, StripExchange};
use crate::placement_repair::attempt::{
    code_shards, confirm_published_target, confirmation, drop_target, find_strip, in_phase,
    is_spent, judge_move, move_step, moved_strip, moving_source, plan_move, record_destination, retire_target,
    set_phase, strip_to_repair, without_target, DestinationModel, DestinationRequest, MoveModel,
    MoveStep,
};
use crate::placement_repair::{
    first_over_budget, over_budget, placement_operation, placement_operation_id, PlacementRepairError, PlacementRepairModel,
    PlacementRepairTaskPayload, RepairTargetCheckpoint, RepairTargetPhase,
};
use crate::repair::attempt::{lemma_first_exists, lemma_first_index};
use crate::task::relocation::{weakens, with_segment};
use crate::task::TaskKind;
use crate::text::text;
use crate::topology::TopologySnapshot;
use crate::types::{
    copy_segments, Chunk, ChunkId, ChunkModel, ChunkStrip, LayoutModel, PlacementAssessment,
    Segment, Strip, StripModel,
};

verus! {

/// What an attempt waits for.
#[derive(Debug, Clone, Copy, PartialEq, Eq, Structural)]
pub enum Stage {
    /// The chunk.
    Query,
    /// The checkpoint that says the target is published.
    Announce,
    /// The confirmation of the target.
    Confirm,
    /// The checkpoint that says the target is confirmed.
    Settle,
    /// The checkpoint without a spent target.
    Retire,
    /// The assessment of the strip as it is.
    Assess,
    /// The strip without mark.
    Clear,
    /// A destination.
    Allocate,
    /// The checkpoint with the destination.
    Record,
    /// The copy of the fragment.
    Copy,
    /// The checkpoint that says the fragment is copied.
    KeepCopy,
    /// The assessment of the strip after the move.
    Judge,
    /// The return of the destination.
    Discard,
    /// The checkpoint without the returned destination.
    Forget,
    /// The strip after the move.
    Publish,
    /// The checkpoint that says the move is published.
    KeepPublished,
    /// Nothing: the attempt is over.
    Over,
}

/// What happened to the last action of an attempt.
#[derive(Debug)]
pub enum AttemptEvent {
    Loaded(Chunk),
    Assessed(PlacementAssessment),
    Allocated(Segment),
    /// The action was done and has no result.
    Performed,
}

/// Model of an event.
pub enum EventModel {
    Loaded(ChunkModel),
    Assessed(PlacementAssessment),
    Allocated(Segment),
    Performed,
}

impl View for AttemptEvent {
    type V = EventModel;

    open spec fn view(&self) -> EventModel {
        match self {
            AttemptEvent::Loaded(chunk) => EventModel::Loaded(chunk@),
            AttemptEvent::Assessed(assessment) => EventModel::Assessed(*assessment),
            AttemptEvent::Allocated(segment) => EventModel::Allocated(*segment),
            AttemptEvent::Performed => EventModel::Performed,
        }
    }
}

/// What an attempt does next.
#[derive(Debug)]
pub enum AttemptAction {
    /// Load the chunk.
    Query(ChunkId),
    /// Store the checkpoint.
    Store(PlacementRepairTaskPayload),
    /// Confirm a segment that was allocated for the time being.
    Confirm(Segment),
    /// Assess the placement of the segments.
    Assess { segments: Vec<Segment>, loss_budget: u32, usage_fresh: bool },
    /// Replace the strip by one of the same segments.
    Replace(StripExchange),
    /// Allocate a destination.
    Allocate(DestinationRequest),
    /// Read the source, write the destination and make that durable.
    Copy { source: Segment, destination: Segment, unit_bytes: u64 },
    /// Give a destination back.
    Discard(Segment),
    /// Publish the strip after the move.
    Publish(StripExchange),
    /// The attempt is over: whether the repair is complete.
    Finish(bool),
    /// The attempt is over with an error.
    Fail(PlacementRepairError),
    /// The event is not the one that was waited for.
    Ignore,
}

/// Model of an action.
pub enum ActionModel {
    Query(ChunkId),
    Store(PlacementRepairTaskPayload),
    Confirm(Segment),
    Assess { segments: Seq<Segment>, loss_budget: u32, usage_fresh: bool },
    Replace(ExchangeModel),
    Allocate(DestinationModel),
    Copy { source: Segment, destination: Segment, unit_bytes: u64 },
    Discard(Segment),
    Publish(ExchangeModel),
    Finish(bool),
    Fail(PlacementRepairModel),
    Ignore,
}

impl View for AttemptAction {
    type V = ActionModel;

    open spec fn view(&self) -> ActionModel {
        match self {
            AttemptAction::Query(id) => ActionModel::Query(*id),
            AttemptAction::Store(payload) => ActionModel::Store(*payload),
            AttemptAction::Confirm(segment) => ActionModel::Confirm(*segment),
            AttemptAction::Assess { segments, loss_budget, usage_fresh } => ActionModel::Assess {
                segments: segments@,
                loss_budget: *loss_budget,
                usage_fresh: *usage_fresh,
            },
            AttemptAction::Replace(exchange) => ActionModel::Replace(exchange@),
            AttemptAction::Allocate(request) => ActionModel::Allocate(request@),
            AttemptAction::Copy { source, destination, unit_bytes } => ActionModel::Copy {
                source: *source,
                destination: *destination,
                unit_bytes: *unit_bytes,
            },
            AttemptAction::Discard(segment) => ActionModel::Discard(*segment),
            AttemptAction::Publish(exchange) => ActionModel::Publish(exchange@),
            AttemptAction::Finish(complete) => ActionModel::Finish(*complete),
            AttemptAction::Fail(error) => ActionModel::Fail(error@),
            AttemptAction::Ignore => ActionModel::Ignore,
        }
    }
}

/// An attempt: its checkpoint, the chunk it works on, and what it waits for.
#[derive(Debug)]
pub struct PlacementAttempt {
    operation_id: ChunkId,
    payload: PlacementRepairTaskPayload,
    chunk: Option<Chunk>,
    index: usize,
    current: Option<PlacementAssessment>,
    source_index: usize,
    moved: Option<ChunkStrip>,
    stage: Stage,
}

/// Model of an attempt.
pub struct AttemptModel {
    pub operation_id: ChunkId,
    pub payload: PlacementRepairTaskPayload,
    pub chunk: Option<ChunkModel>,
    pub index: int,
    pub current: Option<PlacementAssessment>,
    pub source_index: int,
    pub moved: Option<StripModel>,
    pub stage: Stage,
}

impl View for PlacementAttempt {
    type V = AttemptModel;

    closed spec fn view(&self) -> AttemptModel {
        AttemptModel {
            operation_id: self.operation_id,
            payload: self.payload,
            chunk: match self.chunk {
                Some(chunk) => Some(chunk@),
                None => None,
            },
            index: self.index as int,
            current: self.current,
            source_index: self.source_index as int,
            moved: match self.moved {
                Some(strip) => Some(strip@),
                None => None,
            },
            stage: self.stage,
        }
    }
}

impl AttemptModel {
    /// The strip that the attempt is about.
    pub open spec fn strip(self) -> StripModel {
        self.chunk->0.strips[self.index]
    }

    /// The attempt waits for the chunk or is over, or has found its strip.
    pub open spec fn has_strip(self) -> bool {
        &&& self.chunk is Some
        &&& 0 <= self.index < self.chunk->0.strips.len()
        &&& self.strip().strip matches Some(LayoutModel::Ec { .. })
    }

    /// A move has begun: its source stands in the strip, and its target in the
    /// checkpoint.
    pub open spec fn is_moving(self) -> bool {
        &&& 0 <= self.source_index < self.strip().segments().len()
        &&& self.current is Some
        &&& self.payload.target is Some
    }

    /// The move's strip is the attempt's strip with the target in place of the source.
    pub open spec fn has_moved(self) -> bool {
        &&& self.moved is Some
        &&& self.moved->0.strip == with_segment(
            self.strip(),
            self.source_index,
            self.payload.target->0.destination,
        ).strip
    }

    /// What holds while the attempt waits in its stage.
    pub open spec fn well_formed(self) -> bool {
        match self.stage {
            Stage::Query => self.moved is None,
            Stage::Over => true,
            Stage::Clear | Stage::Forget => self.has_strip(),
            Stage::Announce | Stage::Confirm => self.has_strip() && self.payload.target is Some
                && self.payload.target->0.phase == RepairTargetPhase::Published,
            Stage::Settle => self.has_strip() && is_spent(self.payload),
            Stage::Retire => self.has_strip() && self.moved is None && self.payload.target is None,
            Stage::Assess => self.has_strip() && self.moved is None && !is_ahead(self.payload),
            Stage::Allocate => self.has_strip() && self.moved is None && self.current is Some && 0
                <= self.source_index < self.strip().segments().len(),
            Stage::Record | Stage::Copy => self.has_strip() && self.moved is None && self.is_moving()
                && self.payload.target->0.phase == RepairTargetPhase::Allocated,
            Stage::KeepCopy => self.has_strip() && self.moved is None && self.is_moving()
                && self.payload.target->0.phase == RepairTargetPhase::Copied,
            Stage::Judge | Stage::Discard | Stage::Publish => self.has_strip() && self.is_moving()
                && self.has_moved() && self.payload.target->0.phase == RepairTargetPhase::Copied,
            Stage::KeepPublished => self.has_strip() && self.is_moving() && self.has_moved()
                && self.payload.target->0.phase == RepairTargetPhase::Published,
        }
    }
}

/// The target is further than a copy.
pub open spec fn is_ahead(payload: PlacementRepairTaskPayload) -> bool {
    payload.target is Some && (payload.target->0.phase == RepairTargetPhase::Published
        || payload.target->0.phase == RepairTargetPhase::Confirmed)
}

/// The attempt in another stage.
pub open spec fn in_stage(attempt: AttemptModel, stage: Stage) -> AttemptModel {
    AttemptModel { stage, ..attempt }
}

/// The attempt is over.
pub open spec fn finished(attempt: AttemptModel, complete: bool) -> (AttemptModel, ActionModel) {
    (in_stage(attempt, Stage::Over), ActionModel::Finish(complete))
}

/// Stores another checkpoint.
pub open spec fn storing(attempt: AttemptModel, payload: PlacementRepairTaskPayload, stage: Stage) -> (
    AttemptModel,
    ActionModel,
) {
    (AttemptModel { payload, stage, ..attempt }, ActionModel::Store(payload))
}

/// Begins another move, unless the strip is not marked.
pub open spec fn beginning(attempt: AttemptModel) -> (AttemptModel, ActionModel) {
    if !attempt.strip().placement_repair_required {
        finished(attempt, true)
    } else {
        (
            in_stage(attempt, Stage::Assess),
            ActionModel::Assess {
                segments: attempt.strip().segments(),
                loss_budget: code_shards(attempt.strip()),
                usage_fresh: attempt.strip().placement_assessment is Some
                    && attempt.strip().placement_assessment->0.usage_fresh,
            },
        )
    }
}

/// Goes on once the target needs no confirmation: after a move the attempt is over;
/// before it, a spent target is retired first.
pub open spec fn settled(attempt: AttemptModel) -> (AttemptModel, ActionModel) {
    match attempt.moved {
        Some(moved) => finished(attempt, !moved.placement_repair_required),
        None => if is_spent(attempt.payload) {
            storing(attempt, without_target(attempt.payload), Stage::Retire)
        } else {
            beginning(attempt)
        },
    }
}

/// Confirms the target where the segments show it published.
pub open spec fn confirming(attempt: AttemptModel, segments: Seq<Segment>) -> (AttemptModel, ActionModel) {
    let step = confirmation(attempt.payload, segments);
    if step.store {
        storing(attempt, step.payload, Stage::Announce)
    } else {
        match step.confirm {
            Some(segment) => (in_stage(attempt, Stage::Confirm), ActionModel::Confirm(segment)),
            None => settled(attempt),
        }
    }
}

/// Assesses the strip after the move.
pub open spec fn judging(attempt: AttemptModel) -> (AttemptModel, ActionModel) {
    let moved = with_segment(
        attempt.strip(),
        attempt.source_index,
        attempt.payload.target->0.destination,
    );
    (
        AttemptModel { moved: Some(moved), stage: Stage::Judge, ..attempt },
        ActionModel::Assess {
            segments: moved.segments(),
            loss_budget: code_shards(attempt.strip()),
            usage_fresh: attempt.current->0.usage_fresh,
        },
    )
}

/// Goes on with the move in the checkpoint: an allocated target is written first.
pub open spec fn moving(attempt: AttemptModel) -> (AttemptModel, ActionModel) {
    let target = attempt.payload.target->0;
    if target.phase == RepairTargetPhase::Allocated {
        (
            in_stage(attempt, Stage::Copy),
            ActionModel::Copy {
                source: attempt.strip().segments()[attempt.source_index],
                destination: target.destination,
                unit_bytes: clip_u64(attempt.strip().unit_kb * 1024),
            },
        )
    } else {
        judging(attempt)
    }
}

/// The strip takes the place of the attempt's strip.
pub open spec fn exchange(attempt: AttemptModel, chunk_id: ChunkId, new_strip: StripModel) -> ExchangeModel {
    ExchangeModel {
        chunk_id,
        modify_ts: attempt.chunk->0.modify_ts,
        index: clip_u32(attempt.index),
        old_strip: attempt.strip(),
        new_strip,
        operation_id: placement_operation(attempt.operation_id, attempt.strip().strip_sequence),
    }
}

/// Chooses what to do under the assessment of the strip as it is.
pub open spec fn choosing(snap: &TopologySnapshot, attempt: AttemptModel, current: PlacementAssessment) -> (
    AttemptModel,
    ActionModel,
) {
    match move_step(snap, attempt.strip(), attempt.payload, current) {
        MoveModel::Complete => finished(attempt, true),
        MoveModel::Wait => finished(attempt, false),
        MoveModel::ClearMarker(strip) => match attempt.chunk->0.id {
            Some(chunk_id) => (
                in_stage(attempt, Stage::Clear),
                ActionModel::Replace(exchange(attempt, chunk_id, strip)),
            ),
            None => (
                in_stage(attempt, Stage::Over),
                ActionModel::Fail(PlacementRepairModel::Payload("chunk has no ID"@)),
            ),
        },
        MoveModel::Allocate(request) => (
            AttemptModel {
                current: Some(current),
                source_index: request.source_index,
                stage: Stage::Allocate,
                ..attempt
            },
            ActionModel::Allocate(request),
        ),
        MoveModel::Continue { source_index, target } => moving(
            AttemptModel { current: Some(current), source_index, ..attempt },
        ),
    }
}

/// Decides under the assessment of the strip after the move: a move that weakens the
/// strip is taken back.
pub open spec fn deciding(attempt: AttemptModel, next: PlacementAssessment) -> (AttemptModel, ActionModel) {
    if weakens(attempt.current->0, next) {
        (
            in_stage(attempt, Stage::Discard),
            ActionModel::Discard(attempt.payload.target->0.destination),
        )
    } else {
        let strip = StripModel {
            placement_assessment: Some(next),
            placement_repair_required: !next.all_protected(),
            ..attempt.moved->0
        };
        (
            AttemptModel { moved: Some(strip), stage: Stage::Publish, ..attempt },
            ActionModel::Publish(exchange(attempt, attempt.payload.chunk_id, strip)),
        )
    }
}

/// Goes on after an action without result.
pub open spec fn performed(attempt: AttemptModel) -> (AttemptModel, ActionModel) {
    match attempt.stage {
        Stage::Announce => (
            in_stage(attempt, Stage::Confirm),
            ActionModel::Confirm(attempt.payload.target->0.destination),
        ),
        Stage::Confirm => storing(
            attempt,
            in_phase(attempt.payload, RepairTargetPhase::Confirmed),
            Stage::Settle,
        ),
        Stage::Settle => settled(attempt),
        Stage::Retire => beginning(attempt),
        Stage::Clear => finished(attempt, true),
        Stage::Record => moving(attempt),
        Stage::Copy => storing(
            attempt,
            in_phase(attempt.payload, RepairTargetPhase::Copied),
            Stage::KeepCopy,
        ),
        Stage::KeepCopy => judging(attempt),
        Stage::Discard => storing(attempt, without_target(attempt.payload), Stage::Forget),
        Stage::Forget => finished(attempt, false),
        Stage::Publish => storing(
            attempt,
            in_phase(attempt.payload, RepairTargetPhase::Published),
            Stage::KeepPublished,
        ),
        Stage::KeepPublished => confirming(attempt, attempt.moved->0.segments()),
        _ => (attempt, ActionModel::Ignore),
    }
}

/// The attempt and its action after an event.
pub open spec fn next_of(snap: &TopologySnapshot, attempt: AttemptModel, event: EventModel) -> (
    AttemptModel,
    ActionModel,
) {
    match event {
        EventModel::Loaded(chunk) => if attempt.stage == Stage::Query {
            match strip_to_repair(chunk, attempt.payload.strip_sequence) {
                None => finished(attempt, true),
                Some(index) => confirming(
                    AttemptModel { chunk: Some(chunk), index, ..attempt },
                    chunk.strips[index].segments(),
                ),
            }
        } else {
            (attempt, ActionModel::Ignore)
        },
        EventModel::Assessed(assessment) => if attempt.stage == Stage::Assess {
            choosing(snap, attempt, assessment)
        } else if attempt.stage == Stage::Judge {
            deciding(attempt, assessment)
        } else {
            (attempt, ActionModel::Ignore)
        },
        EventModel::Allocated(destination) => if attempt.stage == Stage::Allocate {
            let source = attempt.strip().segments()[attempt.source_index];
            storing(
                attempt,
                PlacementRepairTaskPayload {
                    target: Some(
                        RepairTargetCheckpoint {
                            source,
                            destination,
                            phase: RepairTargetPhase::Allocated,
                        },
                    ),
                    ..attempt.payload
                },
                Stage::Record,
            )
        } else {
            (attempt, ActionModel::Ignore)
        },
        EventModel::Performed => performed(attempt),
    }
}

impl PlacementAttempt {
    /// An attempt from its checkpoint, and its first action.
    pub fn new(operation_id: ChunkId, payload: PlacementRepairTaskPayload) -> (r: (
        PlacementAttempt,
        AttemptAction,
    ))
        ensures
            r.0@ == (AttemptModel {
                operation_id,
                payload,
                chunk: None,
                index: 0,
                current: None,
                source_index: 0,
                moved: None,
                stage: Stage::Query,
            }),
            r.0@.well_formed(),
            r.1@ == ActionModel::Query(payload.chunk_id),
    {
        let attempt = PlacementAttempt {
            operation_id,
            payload,
            chunk: None,
            index: 0,
            current: None,
            source_index: 0,
            moved: None,
            stage: Stage::Query,
        };
        (attempt, AttemptAction::Query(payload.chunk_id))
    }

    fn finish(&mut self, complete: bool) -> (r: AttemptAction)
        ensures
            (final(self)@, r@) == finished(old(self)@, complete),
    {
        self.stage = Stage::Over;
        AttemptAction::Finish(complete)
    }

    fn store(&mut self, payload: PlacementRepairTaskPayload, stage: Stage) -> (r: AttemptAction)
        ensures
            (final(self)@, r@) == storing(old(self)@, payload, stage),
    {
        self.payload = payload;
        self.stage = stage;
        AttemptAction::Store(payload)
    }

    fn begin(&mut self) -> (r: AttemptAction)
        requires
            old(self)@.has_strip(),
        ensures
            (final(self)@, r@) == beginning(old(self)@),
    {
        let strip = match &self.chunk {
            Some(chunk) => &chunk.strips[self.index],
            None => {
                return AttemptAction::Ignore;
            },
        };
        assert(old(self)@.strip() == strip@);
        if !strip.placement_repair_required {
            return self.finish(true);
        }
        let usage_fresh: bool = match strip.placement_assessment {
            Some(assessment) => assessment.usage_fresh,
            None => false,
        };
        match &strip.strip {
            Some(Strip::EcStrip(ec)) => {
                let action = AttemptAction::Assess {
                    segments: copy_segments(&ec.segments),
                    loss_budget: ec.code_num,
                    usage_fresh,
                };
                self.stage = Stage::Assess;
                action
            },
            _ => AttemptAction::Ignore,
        }
    }

    fn settle(&mut self) -> (r: AttemptAction)
        requires
            old(self)@.has_strip(),
        ensures
            (final(self)@, r@) == settled(old(self)@),
    {
        let complete: Option<bool> = match &self.moved {
            Some(moved) => Some(!moved.placement_repair_required),
            None => None,
        };
        match complete {
            Some(complete) => self.finish(complete),
            None => match retire_target(self.payload) {
                Some(payload) => self.store(payload, Stage::Retire),
                None => self.begin(),
            },
        }
    }

    fn confirm(&mut self, segments: &[Segment]) -> (r: AttemptAction)
        requires
            old(self)@.has_strip(),
        ensures
            (final(self)@, r@) == confirming(old(self)@, segments@),
    {
        let step = confirm_published_target(self.payload, segments);
        if step.store {
            return self.store(step.payload, Stage::Announce);
        }
        match step.confirm {
            Some(segment) => {
                self.stage = Stage::Confirm;
                AttemptAction::Confirm(segment)
            },
            None => self.settle(),
        }
    }

    fn judge(&mut self) -> (r: AttemptAction)
        requires
            old(self)@.has_strip(),
            old(self)@.is_moving(),
        ensures
            (final(self)@, r@) == judging(old(self)@),
    {
        let (strip, target, current) = match (&self.chunk, self.payload.target, self.current) {
            (Some(chunk), Some(target), Some(current)) => (&chunk.strips[self.index], target, current),
            _ => {
                return AttemptAction::Ignore;
            },
        };
        assert(old(self)@.strip() == strip@);
        let moved = moved_strip(strip, self.source_index, target.destination);
        let loss_budget: u32 = match &strip.strip {
            Some(Strip::EcStrip(ec)) => ec.code_num,
            _ => 0,
        };
        let action = AttemptAction::Assess {
            segments: moved.extract_segments(),
            loss_budget,
            usage_fresh: current.usage_fresh,
        };
        self.moved = Some(moved);
        self.stage = Stage::Judge;
        action
    }

    fn go_on(&mut self) -> (r: AttemptAction)
        requires
            old(self)@.has_strip(),
            old(self)@.is_moving(),
        ensures
            (final(self)@, r@) == moving(old(self)@),
    {
        let (strip, target) = match (&self.chunk, self.payload.target) {
            (Some(chunk), Some(target)) => (&chunk.strips[self.index], target),
            _ => {
                return AttemptAction::Ignore;
            },
        };
        assert(old(self)@.strip() == strip@);
        if target.phase != RepairTargetPhase::Allocated {
            return self.judge();
        }
        match &strip.strip {
            Some(Strip::EcStrip(ec)) => {
                let action = AttemptAction::Copy {
                    source: ec.segments[self.source_index],
                    destination: target.destination,
                    unit_bytes: sat_mul_u64(strip.unit_kb as u64, 1024),
                };
                self.stage = Stage::Copy;
                action
            },
            _ => AttemptAction::Ignore,
        }
    }

    fn exchange_for(&self, chunk: &Chunk, chunk_id: ChunkId, new_strip: ChunkStrip) -> (r: StripExchange)
        requires
            self@.has_strip(),
            self@.chunk == Some(chunk@),
        ensures
            r@ == exchange(self@, chunk_id, new_strip@),
    {
        let strip = &chunk.strips[self.index];
        assert(self@.strip() == strip@);
        StripExchange {
            chunk_id,
            modify_ts: chunk.modify_ts,
            index: usize_to_u32(self.index),
            old_strip: strip.clone(),
            new_strip,
            operation_id: placement_operation_id(self.operation_id, strip.strip_sequence),
        }
    }

    fn choose_move(&mut self, snap: &TopologySnapshot, current: PlacementAssessment) -> (r: AttemptAction)
        requires
            old(self)@.has_strip(),
        ensures
            (final(self)@, r@) == choosing(snap, old(self)@, current),
    {
        let chunk = match &self.chunk {
            Some(chunk) => chunk,
            None => {
                return AttemptAction::Ignore;
            },
        };
        let strip = &chunk.strips[self.index];
        assert(old(self)@.strip() == strip@);
        match plan_move(snap, strip, &self.payload, current) {
            MoveStep::Complete => self.finish(true),
            MoveStep::Wait => self.finish(false),
            MoveStep::ClearMarker(next) => match chunk.id {
                Some(chunk_id) => {
                    let exchange = self.exchange_for(chunk, chunk_id, next);
                    self.stage = Stage::Clear;
                    AttemptAction::Replace(exchange)
                },
                None => {
                    self.stage = Stage::Over;
                    AttemptAction::Fail(PlacementRepairError::Payload(text("chunk has no ID")))
                },
            },
            MoveStep::Allocate(request) => {
                self.current = Some(current);
                self.source_index = request.source_index;
                self.stage = Stage::Allocate;
                AttemptAction::Allocate(request)
            },
            MoveStep::Continue { source_index, target: _ } => {
                self.current = Some(current);
                self.source_index = source_index;
                self.go_on()
            },
        }
    }

    fn decide(&mut self, next: PlacementAssessment) -> (r: AttemptAction)
        requires
            old(self)@.has_strip(),
            old(self)@.is_moving(),
            old(self)@.moved is Some,
        ensures
            (final(self)@, r@) == deciding(old(self)@, next),
    {
        let (chunk, moved, target, current) = match (
            &self.chunk,
            &self.moved,
            self.payload.target,
            self.current,
        ) {
            (Some(chunk), Some(moved), Some(target), Some(current)) => (chunk, moved, target, current),
            _ => {
                return AttemptAction::Ignore;
            },
        };
        match judge_move(moved.clone(), &current, &next) {
            None => {
                self.stage = Stage::Discard;
                AttemptAction::Discard(target.destination)
            },
            Some(strip) => {
                let exchange = self.exchange_for(chunk, self.payload.chunk_id, strip.clone());
                self.moved = Some(strip);
                self.stage = Stage::Publish;
                AttemptAction::Publish(exchange)
            },
        }
    }

    fn perform(&mut self) -> (r: AttemptAction)
        requires
            old(self)@.well_formed(),
        ensures
            (final(self)@, r@) == performed(old(self)@),
    {
        match self.stage {
            Stage::Announce => match self.payload.target {
                Some(target) => {
                    self.stage = Stage::Confirm;
                    AttemptAction::Confirm(target.destination)
                },
                None => AttemptAction::Ignore,
            },
            Stage::Confirm => {
                let payload = set_phase(self.payload, RepairTargetPhase::Confirmed);
                self.store(payload, Stage::Settle)
            },
            Stage::Settle => self.settle(),
            Stage::Retire => self.begin(),
            Stage::Clear => self.finish(true),
            Stage::Record => self.go_on(),
            Stage::Copy => {
                let payload = set_phase(self.payload, RepairTargetPhase::Copied);
                self.store(payload, Stage::KeepCopy)
            },
            Stage::KeepCopy => self.judge(),
            Stage::Discard => {
                let payload = drop_target(self.payload);
                self.store(payload, Stage::Forget)
            },
            Stage::Forget => self.finish(false),
            Stage::Publish => {
                let payload = set_phase(self.payload, RepairTargetPhase::Published);
                self.store(payload, Stage::KeepPublished)
            },
            Stage::KeepPublished => {
                let segments = match &self.moved {
                    Some(moved) => moved.extract_segments(),
                    None => {
                        return AttemptAction::Ignore;
                    },
                };
                self.confirm(&segments)
            },
            _ => AttemptAction::Ignore,
        }
    }

    fn load(&mut self, chunk: Chunk) -> (r: AttemptAction)
        requires
            old(self)@.stage == Stage::Query,
        ensures
            (final(self)@, r@) == (match strip_to_repair(chunk@, old(self)@.payload.strip_sequence) {
                None => finished(old(self)@, true),
                Some(index) => confirming(
                    AttemptModel { chunk: Some(chunk@), index, ..old(self)@ },
                    chunk@.strips[index].segments(),
                ),
            }),
    {
        match find_strip(&chunk, self.payload.strip_sequence) {
            None => self.finish(true),
            Some(index) => {
                assert(chunk@.strips[index as int] == chunk.strips@[index as int]@);
                let segments = chunk.strips[index].extract_segments();
                self.chunk = Some(chunk);
                self.index = index;
                self.confirm(&segments)
            },
        }
    }

    /// The next action of the attempt. Under `snap` a source and a destination are
    /// chosen.
    pub fn step(&mut self, snap: &TopologySnapshot, event: AttemptEvent) -> (r: AttemptAction)
        requires
            old(self)@.well_formed(),
        ensures
            (final(self)@, r@) == next_of(snap, old(self)@, event@),
            final(self)@.well_formed(),
    {
        proof {
            lemma_next_is_well_formed(snap, self@, event@);
        }
        match event {
            AttemptEvent::Loaded(chunk) => match self.stage {
                Stage::Query => self.load(chunk),
                _ => AttemptAction::Ignore,
            },
            AttemptEvent::Assessed(assessment) => match self.stage {
                Stage::Assess => self.choose_move(snap, assessment),
                Stage::Judge => self.decide(assessment),
                _ => AttemptAction::Ignore,
            },
            AttemptEvent::Allocated(destination) => match self.stage {
                Stage::Allocate => {
                    let strip = match &self.chunk {
                        Some(chunk) => &chunk.strips[self.index],
                        None => {
                            return AttemptAction::Ignore;
                        },
                    };
                    assert(old(self)@.strip() == strip@);
                    let source = match &strip.strip {
                        Some(Strip::EcStrip(ec)) => ec.segments[self.source_index],
                        _ => {
                            return AttemptAction::Ignore;
                        },
                    };
                    let payload = record_destination(self.payload, source, destination);
                    self.store(payload, Stage::Record)
                },
                _ => AttemptAction::Ignore,
            },
            AttemptEvent::Performed => self.perform(),
        }
    }
}

proof fn lemma_strip_found(chunk: ChunkModel, strip_sequence: u32)
    ensures
        strip_to_repair(chunk, strip_sequence) matches Some(index) ==> 0 <= index
            < chunk.strips.len() && (chunk.strips[index].strip matches Some(LayoutModel::Ec { .. })),
{
    lemma_sequence_found(chunk.strips, strip_sequence, 0);
}

proof fn lemma_sequence_found(strips: Seq<StripModel>, sequence: u32, from: int)
    requires
        0 <= from,
    ensures
        strip_with_sequence(strips, sequence, from) matches Some(index) ==> from <= index
            < strips.len(),
    decreases strips.len() - from,
{
    if from < strips.len() && strips[from].strip_sequence != sequence {
        lemma_sequence_found(strips, sequence, from + 1);
    }
}

proof fn lemma_next_is_well_formed(snap: &TopologySnapshot, attempt: AttemptModel, event: EventModel)
    requires
        attempt.well_formed(),
    ensures
        next_of(snap, attempt, event).0.well_formed(),
{
    match event {
        EventModel::Loaded(chunk) => {
            lemma_strip_found(chunk, attempt.payload.strip_sequence);
        },
        EventModel::Assessed(_) => {
            if attempt.stage == Stage::Assess {
                lemma_source_in_strip(
                    snap,
                    attempt.strip().segments(),
                    code_shards(attempt.strip()),
                    attempt.payload.target,
                );
            }
        },
        _ => {},
    }
}

proof fn lemma_source_in_strip(
    snap: &TopologySnapshot,
    segments: Seq<Segment>,
    code_num: u32,
    target: Option<RepairTargetCheckpoint>,
)
    ensures
        moving_source(snap, segments, code_num, target) matches Some(at) ==> 0 <= at < segments.len(),
{
    if target is Some && segments.contains(target->0.source) {
        let at = lemma_first_exists(segments, target->0.source, 0);
        lemma_first_index(segments, target->0.source, at);
    } else {
        lemma_over_budget_found(snap, segments, code_num, 0);
    }
}

proof fn lemma_over_budget_found(
    snap: &TopologySnapshot,
    segments: Seq<Segment>,
    loss_budget: u32,
    from: int,
)
    requires
        0 <= from,
    ensures
        first_over_budget(snap, segments, loss_budget, from) matches Some(at) ==> from <= at
            < segments.len(),
    decreases segments.len() - from,
{
    if from < segments.len() && !over_budget(snap, segments, loss_budget, segments[from]) {
        lemma_over_budget_found(snap, segments, loss_budget, from + 1);
    }
}

/// A move is published only once its fragment is copied, and what is published is
/// the strip with the copy in place of its source.
pub proof fn law_only_copies_are_published(snap: &TopologySnapshot, attempt: AttemptModel, event: EventModel)
    requires
        attempt.well_formed(),
        next_of(snap, attempt, event).1 is Publish,
    ensures
        attempt.payload.target is Some,
        attempt.payload.target->0.phase == RepairTargetPhase::Copied,
        next_of(snap, attempt, event).1->Publish_0.old_strip == attempt.strip(),
        next_of(snap, attempt, event).1->Publish_0.new_strip.segments() == attempt.strip().segments().update(
            attempt.source_index,
            attempt.payload.target->0.destination,
        ),
{
}

/// A destination is written only after it stands in a stored checkpoint: the copy
/// follows a stored checkpoint, or one that the attempt began with.
pub proof fn law_copy_follows_checkpoint(snap: &TopologySnapshot, attempt: AttemptModel, event: EventModel)
    requires
        attempt.well_formed(),
        next_of(snap, attempt, event).1 is Copy,
    ensures
        attempt.payload.target is Some,
        attempt.payload.target->0.phase == RepairTargetPhase::Allocated,
        next_of(snap, attempt, event).1->destination == attempt.payload.target->0.destination,
        next_of(snap, attempt, event).0.payload == attempt.payload,
        attempt.stage == Stage::Record || attempt.stage == Stage::Assess,
{
}

/// An attempt that is over stays so.
pub proof fn law_attempt_ends_once(snap: &TopologySnapshot, attempt: AttemptModel, event: EventModel)
    requires
        attempt.stage == Stage::Over,
    ensures
        next_of(snap, attempt, event) == (attempt, ActionModel::Ignore),
{
}

/// Runs placement repairs.
#[derive(Debug, Clone, Copy, PartialEq, Eq, Structural)]
pub struct PlacementRepairTaskHandler {
    /// Version of the checkpoint that is understood.
    pub payload_version: u16,
}

impl PlacementRepairTaskHandler {
    /// Kind of the tasks.
    pub fn kind(&self) -> (r: TaskKind)
        ensures
            r == TaskKind::RepairPlacement,
    {
        TaskKind::RepairPlacement
    }

    /// Whether a checkpoint of the version is understood.
    pub fn supports_version(&self, version: u16) -> (r: bool)
        ensures
            r == (version == self.payload_version),
    {
        version == self.payload_version
    }
}

/// A fragment is copied from where it stands to where the checkpoint tells. What is
/// published is the strip with the copy in the place of this fragment and all others
/// where they were, at its place and revision in the chunk, with the protection that it
/// has then, and marked as long as that is not complete. A move that would weaken the
/// strip is not published: its target is given back.
pub proof fn law_move_publishes_the_copy(
    snap: &TopologySnapshot,
    attempt: AttemptModel,
    event: EventModel,
)
    requires
        attempt.well_formed(),
        attempt.index <= u32::MAX,
    ensures
        next_of(snap, attempt, event).1 matches ActionModel::Copy {
            source,
            destination,
            unit_bytes,
        } ==> {
            let after = next_of(snap, attempt, event).0;
            &&& 0 <= after.source_index < after.strip().segments().len()
            &&& source == after.strip().segments()[after.source_index]
            &&& destination == after.payload.target->0.destination
            &&& unit_bytes == after.strip().unit_kb * 1024
        },
        next_of(snap, attempt, event).1 matches ActionModel::Publish(exchange) ==> {
            &&& attempt.stage == Stage::Judge
            &&& event matches EventModel::Assessed(next)
            &&& exchange.chunk_id == attempt.payload.chunk_id
            &&& exchange.modify_ts == attempt.chunk->0.modify_ts
            &&& exchange.index == attempt.index
            &&& exchange.old_strip == attempt.strip()
            &&& exchange.new_strip.segments() == attempt.strip().segments().update(
                attempt.source_index,
                attempt.payload.target->0.destination,
            )
            &&& exchange.new_strip.placement_assessment == Some(next)
            &&& exchange.new_strip.placement_repair_required == !(next.rack_protected
                && next.node_protected && next.disk_protected)
            &&& attempt.current->0.rack_protected ==> next.rack_protected
            &&& attempt.current->0.node_protected ==> next.node_protected
            &&& attempt.current->0.disk_protected ==> next.disk_protected
            &&& next.max_fragments_per_rack <= attempt.current->0.max_fragments_per_rack
            &&& next.max_fragments_per_node <= attempt.current->0.max_fragments_per_node
            &&& next.max_fragments_per_disk <= attempt.current->0.max_fragments_per_disk
        },
        attempt.stage == Stage::Judge && event is Assessed ==> (next_of(
            snap,
            attempt,
            event,
        ).1 is Publish) || next_of(snap, attempt, event).1 == ActionModel::Discard(
            attempt.payload.target->0.destination,
        ),
        next_of(snap, attempt, event).1 matches ActionModel::Confirm(segment) ==> segment
            == next_of(snap, attempt, event).0.payload.target->0.destination,
{
    lemma_next_is_well_formed(snap, attempt, event);
    if attempt.stage == Stage::Judge {
        if let Some(layout) = attempt.strip().strip {
            let placed = layout.segments().update(
                attempt.source_index,
                attempt.payload.target->0.destination,
            );
            assert(layout.with_segments(placed).segments() =~= placed);
        }
    }
}

/// A strip that is protected again loses its mark, and keeps all its fragments where
/// they are.
pub proof fn law_protected_strip_is_unmarked(
    snap: &TopologySnapshot,
    attempt: AttemptModel,
    current: PlacementAssessment,
)
    requires
        attempt.well_formed(),
        attempt.stage == Stage::Assess,
        attempt.strip().placement_repair_required,
        attempt.chunk->0.id is Some,
        attempt.index <= u32::MAX,
        current.rack_protected && current.node_protected && current.disk_protected,
    ensures
        next_of(snap, attempt, EventModel::Assessed(current)).1 matches ActionModel::Replace(exchange)
            && exchange.old_strip == attempt.strip() && exchange.index == attempt.index
            && exchange.modify_ts == attempt.chunk->0.modify_ts && exchange.new_strip
            == (StripModel {
            placement_assessment: Some(current),
            placement_repair_required: false,
            ..attempt.strip()
        }),
{
}

/// The allocation for a move names the fragment that moves, the others of the strip as
/// those to keep clear of, and is for a fragment whose domain is too full.
pub proof fn law_move_allocates_for_its_source(
    snap: &TopologySnapshot,
    attempt: AttemptModel,
    current: PlacementAssessment,
)
    requires
        attempt.well_formed(),
        attempt.stage == Stage::Assess,
    ensures
        next_of(snap, attempt, EventModel::Assessed(current)).1 matches ActionModel::Allocate(request)
            ==> {
            let segments = attempt.strip().segments();
            &&& attempt.strip().placement_repair_required
            &&& !(current.rack_protected && current.node_protected && current.disk_protected)
            &&& attempt.payload.target is None
            &&& 0 <= request.source_index < segments.len()
            &&& request.source == segments[request.source_index]
            &&& request.survivors == segments.remove(request.source_index)
        },
{
    lemma_next_is_well_formed(snap, attempt, EventModel::Assessed(current));
}

} // verus!
