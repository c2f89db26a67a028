//! The order of work of a strip repair attempt.
use vstd::prelude::*;
use crate::arith::{clip_u32, clip_u64, usize_to_u32};
use crate::conversion::attempt::readable;
use crate::lifecycle::handler::strip_with_sequence;
use crate::lifecycle::replace::{ExchangeModel, StripExchange};
use crate::repair::attempt::{
    among, disks_of, ec_verdict, lemma_first_index, mirror_verdict, recovery_of, repaired,
    with_failures, ReadVerdict, RecoveryModel, RecoveryPlan, RepairRunError, RepairRunModel,
    RepairStats, RepairStripTaskHandler, VerdictModel,
};
use crate::repair::{failure_operation, failure_operation_id, RepairModel, RepairStripTaskV1};
use crate::task::relocation::{first_at, first_index};
use crate::text::text;
use crate::types::{
    contains_segment, position_segment, Chunk, ChunkId, ChunkModel, DiskId, EcState, LayoutModel,
    Segment, Strip, StripModel,
};

verus! {

/// What an attempt waits for.
#[derive(Debug, Clone, Copy, PartialEq, Eq, Structural)]
pub enum Stage {
    /// The chunk.
    Query,
    /// The memory for the shards.
    Reserve,
    /// The data of a segment.
    Read,
    /// The strip with further segments marked.
    Mark,
    /// The shards that were not read.
    Decode,
    /// A fresh segment.
    Allocate,
    /// The data in the fresh segment.
    Write,
    /// The repaired strip.
    Publish,
    /// Nothing: the attempt is over.
    Over,
}

/// What happened to the last action of an attempt.
#[derive(Debug)]
pub enum RepairEvent {
    Loaded(Chunk),
    /// Whether the segment could be read.
    Read(bool),
    Allocated(Segment),
    /// The action was done and has no result.
    Performed,
}

/// Model of an event.
pub enum RepairEventModel {
    Loaded(ChunkModel),
    Read(bool),
    Allocated(Segment),
    Performed,
}

impl View for RepairEvent {
    type V = RepairEventModel;

    open spec fn view(&self) -> RepairEventModel {
        match self {
            RepairEvent::Loaded(chunk) => RepairEventModel::Loaded(chunk@),
            RepairEvent::Read(done) => RepairEventModel::Read(*done),
            RepairEvent::Allocated(segment) => RepairEventModel::Allocated(*segment),
            RepairEvent::Performed => RepairEventModel::Performed,
        }
    }
}

/// What an attempt does next.
#[derive(Debug)]
pub enum RepairAction {
    /// Load the chunk.
    Query(ChunkId),
    /// Reserve memory for the attempt.
    Reserve(u32),
    /// Read the segment at a place of the strip.
    Read { index: usize, segment: Segment, unit_bytes: u64 },
    /// Compute the shards that were not read.
    Decode { data_num: u32, code_num: u32 },
    /// Replace the strip.
    Replace(StripExchange),
    /// Allocate a segment in place of a failed one.
    Allocate {
        chunk_id: ChunkId,
        failed: Segment,
        surviving: Vec<Segment>,
        excluded: Vec<DiskId>,
        allow_unsafe: bool,
    },
    /// Write the data of the source place to the segment, for a place of the strip,
    /// and make that durable.
    Write { index: usize, source: usize, segment: Segment, unit_bytes: u64 },
    /// The attempt is over.
    Finish(RepairStats),
    /// The attempt is over with an error.
    Fail(RepairRunError),
    /// The event is not the one that was waited for.
    Ignore,
}

/// Model of an action.
pub enum RepairActionModel {
    Query(ChunkId),
    Reserve(u32),
    Read { index: int, segment: Segment, unit_bytes: u64 },
    Decode { data_num: u32, code_num: u32 },
    Replace(ExchangeModel),
    Allocate {
        chunk_id: ChunkId,
        failed: Segment,
        surviving: Seq<Segment>,
        excluded: Seq<DiskId>,
        allow_unsafe: bool,
    },
    Write { index: int, source: int, segment: Segment, unit_bytes: u64 },
    Finish(RepairStats),
    Fail(RepairRunModel),
    Ignore,
}

impl View for RepairAction {
    type V = RepairActionModel;

    open spec fn view(&self) -> RepairActionModel {
        match self {
            RepairAction::Query(id) => RepairActionModel::Query(*id),
            RepairAction::Reserve(bytes) => RepairActionModel::Reserve(*bytes),
            RepairAction::Read { index, segment, unit_bytes } => RepairActionModel::Read {
                index: *index as int,
                segment: *segment,
                unit_bytes: *unit_bytes,
            },
            RepairAction::Decode { data_num, code_num } => RepairActionModel::Decode {
                data_num: *data_num,
                code_num: *code_num,
            },
            RepairAction::Replace(exchange) => RepairActionModel::Replace(exchange@),
            RepairAction::Allocate { chunk_id, failed, surviving, excluded, allow_unsafe } =>
                RepairActionModel::Allocate {
                chunk_id: *chunk_id,
                failed: *failed,
                surviving: surviving@,
                excluded: excluded@,
                allow_unsafe: *allow_unsafe,
            },
            RepairAction::Write { index, source, segment, unit_bytes } => RepairActionModel::Write {
                index: *index as int,
                source: *source as int,
                segment: *segment,
                unit_bytes: *unit_bytes,
            },
            RepairAction::Finish(stats) => RepairActionModel::Finish(*stats),
            RepairAction::Fail(error) => RepairActionModel::Fail(error@),
            RepairAction::Ignore => RepairActionModel::Ignore,
        }
    }
}

/// An attempt: the chunk it works on, what was read, and what it waits for.
#[derive(Debug)]
pub struct RepairAttempt {
    handler: RepairStripTaskHandler,
    operation_id: ChunkId,
    payload: RepairStripTaskV1,
    chunk: Option<Chunk>,
    plan: Option<RecoveryPlan>,
    read: Vec<bool>,
    fresh: Vec<Segment>,
    stage: Stage,
}

/// Model of an attempt.
pub struct RepairAttemptModel {
    pub handler: RepairStripTaskHandler,
    pub operation_id: ChunkId,
    pub payload: RepairModel,
    pub chunk: Option<ChunkModel>,
    pub plan: Option<RecoveryModel>,
    pub read: Seq<bool>,
    pub fresh: Seq<Segment>,
    pub stage: Stage,
}

impl View for RepairAttempt {
    type V = RepairAttemptModel;

    closed spec fn view(&self) -> RepairAttemptModel {
        RepairAttemptModel {
            handler: self.handler,
            operation_id: self.operation_id,
            payload: self.payload@,
            chunk: match self.chunk {
                Some(chunk) => Some(chunk@),
                None => None,
            },
            plan: match self.plan {
                Some(plan) => Some(plan@),
                None => None,
            },
            read: self.read@,
            fresh: self.fresh@,
            stage: self.stage,
        }
    }
}

impl RepairAttemptModel {
    /// The strip that the attempt is about.
    pub open spec fn strip(self) -> StripModel {
        self.chunk->0.strips[self.plan->0.strip_index]
    }

    /// The attempt knows what it recovers.
    pub open spec fn has_plan(self) -> bool {
        &&& self.chunk is Some
        &&& self.plan is Some
        &&& 0 <= self.plan->0.strip_index < self.chunk->0.strips.len()
        &&& self.plan->0.segments == self.strip().segments()
        &&& self.plan->0.unavailable.len() > 0
        &&& forall|i: int|
            0 <= i < self.plan->0.unavailable.len() ==> self.plan->0.segments.contains(
                #[trigger] self.plan->0.unavailable[i],
            )
    }

    /// A copy of a mirrored strip was read.
    pub open spec fn has_copy(self) -> bool {
        self.strip().strip matches Some(LayoutModel::Mirror { .. }) ==> self.read.contains(true)
    }

    /// What holds while the attempt waits in its stage.
    pub open spec fn well_formed(self) -> bool {
        match self.stage {
            Stage::Query => self.read.len() == 0 && self.fresh.len() == 0,
            Stage::Over => true,
            Stage::Reserve => self.has_plan() && self.read.len() == 0 && self.fresh.len() == 0,
            Stage::Read => self.has_plan() && self.read.len() < self.plan->0.segments.len()
                && self.fresh.len() == 0,
            Stage::Mark => true,
            Stage::Decode => self.has_plan() && self.fresh.len() == 0 && self.has_copy(),
            Stage::Allocate => self.has_plan() && self.fresh.len() < self.plan->0.unavailable.len()
                && self.has_copy(),
            Stage::Write => self.has_plan() && 0 < self.fresh.len() <= self.plan->0.unavailable.len()
                && self.has_copy(),
            Stage::Publish => self.has_plan(),
        }
    }
}

/// The attempt is over with an error.
pub open spec fn failing(attempt: RepairAttemptModel, error: RepairRunModel) -> (
    RepairAttemptModel,
    RepairActionModel,
) {
    (RepairAttemptModel { stage: Stage::Over, ..attempt }, RepairActionModel::Fail(error))
}

/// The attempt is over.
pub open spec fn finishing(attempt: RepairAttemptModel, stats: RepairStats) -> (
    RepairAttemptModel,
    RepairActionModel,
) {
    (RepairAttemptModel { stage: Stage::Over, ..attempt }, RepairActionModel::Finish(stats))
}

/// A strip takes the place of the attempt's strip.
pub open spec fn exchange(
    attempt: RepairAttemptModel,
    chunk_id: ChunkId,
    new_strip: StripModel,
    operation_id: ChunkId,
) -> ExchangeModel {
    ExchangeModel {
        chunk_id,
        modify_ts: attempt.chunk->0.modify_ts,
        index: clip_u32(attempt.plan->0.strip_index),
        old_strip: attempt.strip(),
        new_strip,
        operation_id,
    }
}

/// Asks for a segment in place of the next failed one.
pub open spec fn allocating(attempt: RepairAttemptModel) -> (RepairAttemptModel, RepairActionModel) {
    let plan = attempt.plan->0;
    (
        RepairAttemptModel { stage: Stage::Allocate, ..attempt },
        RepairActionModel::Allocate {
            chunk_id: attempt.payload.chunk_id,
            failed: plan.unavailable[attempt.fresh.len() as int],
            surviving: readable(plan.segments, plan.unavailable) + attempt.fresh,
            excluded: disks_of(plan.segments) + disks_of(attempt.fresh),
            allow_unsafe: attempt.handler.allow_unsafe_placement,
        },
    )
}

/// Goes on once a fresh segment is written: the strip is published when every
/// failed segment has its replacement.
pub open spec fn written(attempt: RepairAttemptModel) -> (RepairAttemptModel, RepairActionModel) {
    let plan = attempt.plan->0;
    let n = attempt.fresh.len() as int;
    match repaired(attempt.strip(), plan.unavailable.take(n), attempt.fresh) {
        Err(error) => failing(attempt, error),
        Ok(strip) => if n < plan.unavailable.len() {
            allocating(attempt)
        } else {
            (
                RepairAttemptModel { stage: Stage::Publish, ..attempt },
                RepairActionModel::Replace(
                    exchange(attempt, attempt.payload.chunk_id, strip, attempt.operation_id),
                ),
            )
        },
    }
}

/// What the reads came to.
pub open spec fn verdict_of(attempt: RepairAttemptModel) -> Result<VerdictModel, RepairRunModel> {
    let segments = attempt.plan->0.segments;
    let marked = attempt.strip().unavailable_segments;
    match attempt.strip().strip {
        Some(LayoutModel::Mirror { .. }) => mirror_verdict(segments, marked, attempt.read),
        Some(LayoutModel::Ec { code_num, .. }) => ec_verdict(
            segments,
            marked,
            attempt.read,
            code_num,
        ),
        None => Err(RepairRunModel::Permanent("strip has no body"@)),
    }
}

/// Goes on once everything is read that is to be read.
pub open spec fn judging(attempt: RepairAttemptModel) -> (RepairAttemptModel, RepairActionModel) {
    match verdict_of(attempt) {
        Err(error) => failing(attempt, error),
        Ok(VerdictModel::NewFailures(failures)) => match attempt.chunk->0.id {
            None => failing(attempt, RepairRunModel::Permanent("chunk has no ID"@)),
            Some(chunk_id) => (
                RepairAttemptModel { stage: Stage::Mark, ..attempt },
                RepairActionModel::Replace(
                    exchange(
                        attempt,
                        chunk_id,
                        with_failures(attempt.strip(), failures),
                        failure_operation(attempt.operation_id, attempt.strip().strip_sequence),
                    ),
                ),
            ),
        },
        Ok(VerdictModel::Usable) => match attempt.strip().strip {
            Some(LayoutModel::Ec { data_num, code_num, .. }) => (
                RepairAttemptModel { stage: Stage::Decode, ..attempt },
                RepairActionModel::Decode { data_num, code_num },
            ),
            _ => allocating(attempt),
        },
    }
}

/// First segment from `from` on that is not marked, or the number of segments.
pub open spec fn next_unmarked(segments: Seq<Segment>, marked: Seq<Segment>, from: int) -> int
    decreases segments.len() - from,
{
    if from < 0 || from >= segments.len() || !marked.contains(segments[from]) {
        from
    } else {
        next_unmarked(segments, marked, from + 1)
    }
}

/// The reads so far, with the marked segments up to `upto` as not read.
pub open spec fn skipped(read: Seq<bool>, upto: int) -> Seq<bool> {
    Seq::new(upto as nat, |i: int| i < read.len() && read[i])
}

/// Reads the next segment that is not marked.
pub open spec fn reading(attempt: RepairAttemptModel) -> (RepairAttemptModel, RepairActionModel) {
    let plan = attempt.plan->0;
    let index = next_unmarked(
        plan.segments,
        attempt.strip().unavailable_segments,
        attempt.read.len() as int,
    );
    let next = RepairAttemptModel { read: skipped(attempt.read, index), ..attempt };
    if index < plan.segments.len() {
        (
            RepairAttemptModel { stage: Stage::Read, ..next },
            RepairActionModel::Read {
                index,
                segment: plan.segments[index],
                unit_bytes: plan.unit_bytes,
            },
        )
    } else {
        judging(next)
    }
}

/// An erasure-coded strip that cannot be recovered as it is.
pub open spec fn ec_fault(strip: StripModel) -> Option<RepairRunModel> {
    match strip.strip {
        Some(LayoutModel::Ec { data_num, code_num, ec_state, segments }) => if ec_state
            != EcState::Parity {
            Some(RepairRunModel::Retry("EC parity is incomplete"@))
        } else if data_num == 0 || code_num == 0 || segments.len() != data_num + code_num {
            Some(RepairRunModel::Permanent("invalid EC geometry"@))
        } else {
            None
        },
        _ => None,
    }
}

/// First place from `from` on that was read, or the number of places.
pub open spec fn first_read(read: Seq<bool>, from: int) -> int
    decreases read.len() - from,
{
    if from < 0 || from >= read.len() || read[from] {
        from
    } else {
        first_read(read, from + 1)
    }
}

/// The place whose data stands for a failed one: the copy that was read of a
/// mirrored strip, the decoded shard itself of an erasure-coded one.
pub open spec fn source_of(attempt: RepairAttemptModel, index: int) -> int {
    match attempt.strip().strip {
        Some(LayoutModel::Mirror { .. }) => first_read(attempt.read, 0),
        _ => index,
    }
}

/// The attempt and its action after an event.
pub open spec fn next_of(attempt: RepairAttemptModel, event: RepairEventModel) -> (
    RepairAttemptModel,
    RepairActionModel,
) {
    let ignored = (attempt, RepairActionModel::Ignore);
    match event {
        RepairEventModel::Loaded(chunk) => if attempt.stage == Stage::Query {
            match recovery_of(chunk, attempt.payload, attempt.handler.memory_limit) {
                Err(error) => failing(attempt, error),
                Ok(None) => finishing(attempt, RepairStats { segments: 0, bytes: 0 }),
                Ok(Some(plan)) => (
                    RepairAttemptModel {
                        chunk: Some(chunk),
                        plan: Some(plan),
                        stage: Stage::Reserve,
                        ..attempt
                    },
                    RepairActionModel::Reserve(plan.required),
                ),
            }
        } else {
            ignored
        },
        RepairEventModel::Read(done) => if attempt.stage == Stage::Read {
            let next = RepairAttemptModel { read: attempt.read.push(done), ..attempt };
            if done && attempt.strip().strip matches Some(LayoutModel::Mirror { .. }) {
                judging(next)
            } else {
                reading(next)
            }
        } else {
            ignored
        },
        RepairEventModel::Allocated(segment) => if attempt.stage == Stage::Allocate {
            let plan = attempt.plan->0;
            let index = first_index(plan.segments, plan.unavailable[attempt.fresh.len() as int]);
            (
                RepairAttemptModel {
                    fresh: attempt.fresh.push(segment),
                    stage: Stage::Write,
                    ..attempt
                },
                RepairActionModel::Write {
                    index,
                    source: source_of(attempt, index),
                    segment,
                    unit_bytes: plan.unit_bytes,
                },
            )
        } else {
            ignored
        },
        RepairEventModel::Performed => match attempt.stage {
            Stage::Reserve => match ec_fault(attempt.strip()) {
                Some(error) => failing(attempt, error),
                None => reading(attempt),
            },
            Stage::Mark => failing(
                attempt,
                RepairRunModel::Retry("new failed segments were persisted"@),
            ),
            Stage::Decode => allocating(attempt),
            Stage::Write => written(attempt),
            Stage::Publish => finishing(
                attempt,
                RepairStats {
                    segments: attempt.plan->0.unavailable.len() as u64,
                    bytes: clip_u64(
                        attempt.plan->0.shard_bytes * attempt.plan->0.unavailable.len(),
                    ),
                },
            ),
            _ => ignored,
        },
    }
}

proof fn lemma_next_unmarked(segments: Seq<Segment>, marked: Seq<Segment>, from: int)
    requires
        0 <= from <= segments.len(),
    ensures
        from <= next_unmarked(segments, marked, from) <= segments.len(),
    decreases segments.len() - from,
{
    if from < segments.len() && marked.contains(segments[from]) {
        lemma_next_unmarked(segments, marked, from + 1);
    }
}

proof fn lemma_sequence_found(strips: Seq<StripModel>, sequence: u32, from: int)
    requires
        0 <= from,
    ensures
        strip_with_sequence(strips, sequence, from) matches Some(index) ==> from <= index
            < strips.len(),
    decreases strips.len() - from,
{
    if from < strips.len() && strips[from].strip_sequence != sequence {
        lemma_sequence_found(strips, sequence, from + 1);
    }
}

proof fn lemma_among_contained(segments: Seq<Segment>, others: Seq<Segment>)
    ensures
        forall|i: int|
            0 <= i < among(segments, others).len() ==> others.contains(
                #[trigger] among(segments, others)[i],
            ),
    decreases segments.len(),
{
    if segments.len() > 0 {
        lemma_among_contained(segments.drop_last(), others);
        let front = among(segments.drop_last(), others);
        assert forall|i: int| 0 <= i < among(segments, others).len() implies others.contains(
            #[trigger] among(segments, others)[i],
        ) by {
            if i < front.len() {
                assert(among(segments, others)[i] == front[i]);
            }
        }
    }
}

proof fn lemma_plan_found(chunk: ChunkModel, payload: RepairModel, memory_limit: usize)
    ensures
        recovery_of(chunk, payload, memory_limit) matches Ok(Some(plan)) ==> {
            &&& 0 <= plan.strip_index < chunk.strips.len()
            &&& plan.segments == chunk.strips[plan.strip_index].segments()
            &&& plan.unavailable.len() > 0
            &&& forall|i: int|
                0 <= i < plan.unavailable.len() ==> plan.segments.contains(
                    #[trigger] plan.unavailable[i],
                )
        },
{
    lemma_sequence_found(chunk.strips, payload.strip_sequence, 0);
    match strip_with_sequence(chunk.strips, payload.strip_sequence, 0) {
        Some(index) => {
            lemma_among_contained(
                chunk.strips[index].unavailable_segments,
                chunk.strips[index].segments(),
            );
        },
        None => {},
    }
}

impl RepairAttempt {
    /// An attempt from its checkpoint, and its first action.
    pub fn new(handler: RepairStripTaskHandler, operation_id: ChunkId, payload: RepairStripTaskV1) -> (r: (
        RepairAttempt,
        RepairAction,
    ))
        ensures
            r.0@ == (RepairAttemptModel {
                handler,
                operation_id,
                payload: payload@,
                chunk: None,
                plan: None,
                read: Seq::empty(),
                fresh: Seq::empty(),
                stage: Stage::Query,
            }),
            r.0@.well_formed(),
            r.1@ == RepairActionModel::Query(payload.chunk_id),
    {
        let chunk_id = payload.chunk_id;
        let attempt = RepairAttempt {
            handler,
            operation_id,
            payload,
            chunk: None,
            plan: None,
            read: Vec::new(),
            fresh: Vec::new(),
            stage: Stage::Query,
        };
        assert(attempt@.read =~= Seq::empty());
        assert(attempt@.fresh =~= Seq::empty());
        (attempt, RepairAction::Query(chunk_id))
    }

    fn fail(&mut self, error: RepairRunError) -> (r: RepairAction)
        ensures
            (final(self)@, r@) == failing(old(self)@, error@),
    {
        self.stage = Stage::Over;
        RepairAction::Fail(error)
    }

    fn finish(&mut self, stats: RepairStats) -> (r: RepairAction)
        ensures
            (final(self)@, r@) == finishing(old(self)@, stats),
    {
        self.stage = Stage::Over;
        RepairAction::Finish(stats)
    }

    fn allocate(&mut self) -> (r: RepairAction)
        requires
            old(self)@.has_plan(),
            old(self)@.fresh.len() < old(self)@.plan->0.unavailable.len(),
        ensures
            (final(self)@, r@) == allocating(old(self)@),
    {
        let plan = match &self.plan {
            Some(plan) => plan,
            None => {
                return RepairAction::Ignore;
            },
        };
        let inputs = RepairStripTaskHandler::placement_inputs(plan, &self.fresh);
        let action = RepairAction::Allocate {
            chunk_id: self.payload.chunk_id,
            failed: plan.unavailable[self.fresh.len()],
            surviving: inputs.surviving,
            excluded: inputs.excluded,
            allow_unsafe: self.handler.allow_unsafe_placement,
        };
        self.stage = Stage::Allocate;
        action
    }

    fn wrote(&mut self) -> (r: RepairAction)
        requires
            old(self)@.has_plan(),
            old(self)@.fresh.len() <= old(self)@.plan->0.unavailable.len(),
        ensures
            (final(self)@, r@) == written(old(self)@),
    {
        let (chunk, plan) = match (&self.chunk, &self.plan) {
            (Some(chunk), Some(plan)) => (chunk, plan),
            _ => {
                return RepairAction::Ignore;
            },
        };
        let strip = &chunk.strips[plan.strip_index];
        assert(old(self)@.strip() == strip@);
        let n: usize = self.fresh.len();
        let mut failed: Vec<Segment> = Vec::new();
        let mut i: usize = 0;
        while i < n
            invariant
                i <= n <= plan.unavailable@.len(),
                failed@ == plan.unavailable@.take(i as int),
            decreases n - i,
        {
            assert(plan.unavailable@.take(i + 1) =~= plan.unavailable@.take(i as int).push(
                plan.unavailable@[i as int],
            ));
            failed.push(plan.unavailable[i]);
            i = i + 1;
        }
        match RepairStripTaskHandler::repaired_strip(strip, &failed, &self.fresh) {
            Err(error) => self.fail(error),
            Ok(next) => {
                if n < plan.unavailable.len() {
                    return self.allocate();
                }
                let exchange = StripExchange {
                    chunk_id: self.payload.chunk_id,
                    modify_ts: chunk.modify_ts,
                    index: usize_to_u32(plan.strip_index),
                    old_strip: strip.clone(),
                    new_strip: next,
                    operation_id: self.operation_id,
                };
                self.stage = Stage::Publish;
                RepairAction::Replace(exchange)
            },
        }
    }

    fn judge(&mut self) -> (r: RepairAction)
        requires
            old(self)@.has_plan(),
            old(self)@.read.len() <= old(self)@.plan->0.segments.len(),
            old(self)@.strip().strip matches Some(LayoutModel::Ec { .. }) ==> old(self)@.read.len()
                == old(self)@.plan->0.segments.len(),
            old(self)@.fresh.len() == 0,
        ensures
            (final(self)@, r@) == judging(old(self)@),
    {
        let (chunk, plan) = match (&self.chunk, &self.plan) {
            (Some(chunk), Some(plan)) => (chunk, plan),
            _ => {
                return RepairAction::Ignore;
            },
        };
        let strip = &chunk.strips[plan.strip_index];
        assert(old(self)@.strip() == strip@);
        let verdict = match &strip.strip {
            Some(Strip::MirrorStrip(_)) => RepairStripTaskHandler::judge_mirror_reads(
                &plan.segments,
                &strip.unavailable_segments,
                &self.read,
            ),
            Some(Strip::EcStrip(ec)) => RepairStripTaskHandler::judge_ec_reads(
                &plan.segments,
                &strip.unavailable_segments,
                &self.read,
                ec.code_num,
            ),
            None => Err(RepairRunError::Permanent(text("strip has no body"))),
        };
        match verdict {
            Err(error) => self.fail(error),
            Ok(ReadVerdict::NewFailures(failures)) => match chunk.id {
                None => self.fail(RepairRunError::Permanent(text("chunk has no ID"))),
                Some(chunk_id) => {
                    let exchange = StripExchange {
                        chunk_id,
                        modify_ts: chunk.modify_ts,
                        index: usize_to_u32(plan.strip_index),
                        old_strip: strip.clone(),
                        new_strip: RepairStripTaskHandler::mark_failures(strip, &failures),
                        operation_id: failure_operation_id(self.operation_id, strip.strip_sequence),
                    };
                    self.stage = Stage::Mark;
                    RepairAction::Replace(exchange)
                },
            },
            Ok(ReadVerdict::Usable) => match &strip.strip {
                Some(Strip::EcStrip(ec)) => {
                    let action = RepairAction::Decode { data_num: ec.data_num, code_num: ec.code_num };
                    self.stage = Stage::Decode;
                    action
                },
                _ => self.allocate(),
            },
        }
    }

    fn read_next(&mut self) -> (r: RepairAction)
        requires
            old(self)@.has_plan(),
            old(self)@.read.len() <= old(self)@.plan->0.segments.len(),
            old(self)@.fresh.len() == 0,
        ensures
            (final(self)@, r@) == reading(old(self)@),
    {
        let ghost start = self@;
        let (chunk, plan) = match (&self.chunk, &self.plan) {
            (Some(chunk), Some(plan)) => (chunk, plan),
            _ => {
                return RepairAction::Ignore;
            },
        };
        let strip = &chunk.strips[plan.strip_index];
        let marked = &strip.unavailable_segments;
        assert(start.strip() == strip@);
        let mut read: Vec<bool> = Vec::new();
        let mut i: usize = 0;
        while i < self.read.len()
            invariant
                i <= self.read@.len(),
                read@.len() == i,
                forall|j: int| 0 <= j < i ==> read@[j] == self.read@[j],
            decreases self.read.len() - i,
        {
            read.push(self.read[i]);
            i = i + 1;
        }
        let ghost from = self.read@.len() as int;
        while i < plan.segments.len() && contains_segment(marked, &plan.segments[i])
            invariant
                from == self.read@.len(),
                from <= i <= plan.segments@.len(),
                read@.len() == i,
                forall|j: int| 0 <= j < i ==> read@[j] == (j < from && self.read@[j]),
                next_unmarked(plan.segments@, marked@, from) == next_unmarked(
                    plan.segments@,
                    marked@,
                    i as int,
                ),
            decreases plan.segments.len() - i,
        {
            read.push(false);
            i = i + 1;
        }
        assert(read@ =~= skipped(self.read@, i as int));
        if i < plan.segments.len() {
            let action = RepairAction::Read {
                index: i,
                segment: plan.segments[i],
                unit_bytes: plan.unit_bytes,
            };
            self.read = read;
            self.stage = Stage::Read;
            return action;
        }
        self.read = read;
        self.judge()
    }

    fn load(&mut self, chunk: Chunk) -> (r: RepairAction)
        requires
            old(self)@.stage == Stage::Query,
        ensures
            (final(self)@, r@) == next_of(old(self)@, RepairEventModel::Loaded(chunk@)),
    {
        match self.handler.plan_recovery(&chunk, &self.payload) {
            Err(error) => self.fail(error),
            Ok(None) => self.finish(RepairStats { segments: 0, bytes: 0 }),
            Ok(Some(plan)) => {
                let action = RepairAction::Reserve(plan.required);
                self.chunk = Some(chunk);
                self.plan = Some(plan);
                self.stage = Stage::Reserve;
                action
            },
        }
    }

    fn begin(&mut self) -> (r: RepairAction)
        requires
            old(self)@.has_plan(),
            old(self)@.read.len() == 0,
            old(self)@.fresh.len() == 0,
        ensures
            (final(self)@, r@) == (match ec_fault(old(self)@.strip()) {
                Some(error) => failing(old(self)@, error),
                None => reading(old(self)@),
            }),
    {
        let (chunk, plan) = match (&self.chunk, &self.plan) {
            (Some(chunk), Some(plan)) => (chunk, plan),
            _ => {
                return RepairAction::Ignore;
            },
        };
        let strip = &chunk.strips[plan.strip_index];
        assert(old(self)@.strip() == strip@);
        let checked = match &strip.strip {
            Some(Strip::EcStrip(ec)) => RepairStripTaskHandler::check_ec(ec, ec.segments.len()),
            _ => Ok(()),
        };
        match checked {
            Ok(_) => self.read_next(),
            Err(error) => self.fail(error),
        }
    }

    fn took_segment(&mut self, segment: Segment) -> (r: RepairAction)
        requires
            old(self)@.stage == Stage::Allocate,
            old(self)@.well_formed(),
        ensures
            (final(self)@, r@) == next_of(old(self)@, RepairEventModel::Allocated(segment)),
    {
        let (chunk, plan) = match (&self.chunk, &self.plan) {
            (Some(chunk), Some(plan)) => (chunk, plan),
            _ => {
                return RepairAction::Ignore;
            },
        };
        let strip = &chunk.strips[plan.strip_index];
        assert(old(self)@.strip() == strip@);
        let failed = plan.unavailable[self.fresh.len()];
        assert(plan.segments@.contains(failed));
        match position_segment(&plan.segments, &failed) {
            Some(index) => {
                proof {
                    assert(first_at(plan.segments@, failed, index as int));
                    lemma_first_index(plan.segments@, failed, index as int);
                }
                let mut source: usize = index;
                if let Some(Strip::MirrorStrip(_)) = &strip.strip {
                    source = 0;
                    while source < self.read.len() && !self.read[source]
                        invariant
                            source <= self.read@.len(),
                            first_read(self.read@, 0) == first_read(self.read@, source as int),
                        decreases self.read.len() - source,
                    {
                        source = source + 1;
                    }
                }
                let action = RepairAction::Write {
                    index,
                    source,
                    segment,
                    unit_bytes: plan.unit_bytes,
                };
                self.fresh.push(segment);
                self.stage = Stage::Write;
                action
            },
            None => RepairAction::Ignore,
        }
    }

    /// The next action of the attempt.
    pub fn step(&mut self, event: RepairEvent) -> (r: RepairAction)
        requires
            old(self)@.well_formed(),
        ensures
            (final(self)@, r@) == next_of(old(self)@, event@),
            final(self)@.well_formed(),
    {
        proof {
            lemma_next_is_well_formed(self@, event@);
        }
        match event {
            RepairEvent::Loaded(chunk) => match self.stage {
                Stage::Query => self.load(chunk),
                _ => RepairAction::Ignore,
            },
            RepairEvent::Read(done) => match self.stage {
                Stage::Read => {
                    let mirrored: bool = match (&self.chunk, &self.plan) {
                        (Some(chunk), Some(plan)) => {
                            assert(old(self)@.strip() == chunk.strips@[plan.strip_index as int]@);
                            match &chunk.strips[plan.strip_index].strip {
                                Some(Strip::MirrorStrip(_)) => true,
                                _ => false,
                            }
                        },
                        _ => false,
                    };
                    self.read.push(done);
                    if done && mirrored {
                        self.judge()
                    } else {
                        self.read_next()
                    }
                },
                _ => RepairAction::Ignore,
            },
            RepairEvent::Allocated(segment) => match self.stage {
                Stage::Allocate => self.took_segment(segment),
                _ => RepairAction::Ignore,
            },
            RepairEvent::Performed => match self.stage {
                Stage::Reserve => self.begin(),
                Stage::Mark => self.fail(
                    RepairRunError::Retry(text("new failed segments were persisted")),
                ),
                Stage::Decode => self.allocate(),
                Stage::Write => self.wrote(),
                Stage::Publish => {
                    let stats = match &self.plan {
                        Some(plan) => RepairStripTaskHandler::stats(plan),
                        None => {
                            return RepairAction::Ignore;
                        },
                    };
                    self.finish(stats)
                },
                _ => RepairAction::Ignore,
            },
        }
    }
}

proof fn lemma_next_is_well_formed(attempt: RepairAttemptModel, event: RepairEventModel)
    requires
        attempt.well_formed(),
    ensures
        next_of(attempt, event).0.well_formed(),
{
    match event {
        RepairEventModel::Loaded(chunk) => {
            lemma_plan_found(chunk, attempt.payload, attempt.handler.memory_limit);
        },
        RepairEventModel::Read(done) => {
            if attempt.stage == Stage::Read {
                lemma_next_unmarked(
                    attempt.plan->0.segments,
                    attempt.strip().unavailable_segments,
                    attempt.read.len() as int + 1,
                );
            }
        },
        RepairEventModel::Performed => {
            if attempt.stage == Stage::Reserve {
                lemma_next_unmarked(
                    attempt.plan->0.segments,
                    attempt.strip().unavailable_segments,
                    0,
                );
            }
        },
        _ => {},
    }
}

/// The strip is replaced under the task's own identity only once every failed
/// segment has a fresh one in its place, all of them written before.
pub proof fn law_repair_is_complete(attempt: RepairAttemptModel, event: RepairEventModel)
    requires
        attempt.well_formed(),
        next_of(attempt, event).0.stage == Stage::Publish,
        attempt.stage != Stage::Publish,
    ensures
        attempt.stage == Stage::Write,
        event is Performed,
        attempt.fresh.len() == attempt.plan->0.unavailable.len(),
        next_of(attempt, event).1 is Replace,
        repaired(attempt.strip(), attempt.plan->0.unavailable, attempt.fresh) == Ok::<
            StripModel,
            RepairRunModel,
        >(next_of(attempt, event).1->Replace_0.new_strip),
{
    let plan = attempt.plan->0;
    assert(plan.unavailable.take(plan.unavailable.len() as int) =~= plan.unavailable);
}

proof fn lemma_first_read(read: Seq<bool>, from: int, k: int)
    requires
        0 <= from <= k < read.len(),
        read[k],
    ensures
        from <= first_read(read, from) <= k,
        read[first_read(read, from)],
    decreases read.len() - from,
{
    if !read[from] {
        lemma_first_read(read, from + 1, k);
    }
}

/// What is written in place of a failed copy of a mirrored strip is a copy that
/// was read.
pub proof fn law_mirror_source_was_read(attempt: RepairAttemptModel, event: RepairEventModel)
    requires
        attempt.well_formed(),
        attempt.stage == Stage::Allocate,
        attempt.strip().strip matches Some(LayoutModel::Mirror { .. }),
        event is Allocated,
    ensures
        next_of(attempt, event).1 is Write,
        0 <= next_of(attempt, event).1->Write_source < attempt.read.len(),
        attempt.read[next_of(attempt, event).1->Write_source],
{
    let k = choose|k: int| 0 <= k < attempt.read.len() && attempt.read[k];
    lemma_first_read(attempt.read, 0, k);
}

/// A segment that is marked is never read.
pub proof fn law_marked_segments_are_not_read(attempt: RepairAttemptModel, event: RepairEventModel)
    requires
        attempt.well_formed(),
        next_of(attempt, event).1 is Read,
    ensures
        !next_of(attempt, event).0.strip().unavailable_segments.contains(
            next_of(attempt, event).1->Read_segment,
        ),
{
    let from = if event is Performed {
        0
    } else {
        attempt.read.len() as int + 1
    };
    lemma_unmarked(attempt.plan->0.segments, attempt.strip().unavailable_segments, from);
}

proof fn lemma_unmarked(segments: Seq<Segment>, marked: Seq<Segment>, from: int)
    requires
        0 <= from <= segments.len(),
    ensures
        ({
            let at = next_unmarked(segments, marked, from);
            at < segments.len() ==> !marked.contains(segments[at])
        }),
    decreases segments.len() - from,
{
    if from < segments.len() && marked.contains(segments[from]) {
        lemma_unmarked(segments, marked, from + 1);
    }
}

/// The fresh segment for a failed one keeps clear of the disks of all segments of the
/// strip and of the fresh ones so far, and of what survives. What is written goes to the
/// segment that was allocated, for the place of the failed segment whose turn it is.
pub proof fn law_fresh_segments_are_written_in_turn(
    attempt: RepairAttemptModel,
    event: RepairEventModel,
)
    requires
        attempt.well_formed(),
    ensures
        next_of(attempt, event).1 matches RepairActionModel::Allocate {
            chunk_id,
            failed,
            surviving,
            excluded,
            allow_unsafe,
        } ==> {
            let plan = next_of(attempt, event).0.plan->0;
            let fresh = next_of(attempt, event).0.fresh;
            &&& chunk_id == attempt.payload.chunk_id
            &&& fresh.len() < plan.unavailable.len()
            &&& failed == plan.unavailable[fresh.len() as int]
            &&& surviving == plan.segments.filter(|s: Segment| !plan.unavailable.contains(s)) + fresh
            &&& excluded == plan.segments.filter(|s: Segment| s.disk_id is Some).map_values(
                |s: Segment| s.disk_id->0,
            ) + fresh.filter(|s: Segment| s.disk_id is Some).map_values(|s: Segment| s.disk_id->0)
            &&& allow_unsafe == attempt.handler.allow_unsafe_placement
        },
        next_of(attempt, event).1 matches RepairActionModel::Write {
            index,
            segment,
            unit_bytes,
            ..
        } ==> {
            let plan = attempt.plan->0;
            &&& event == RepairEventModel::Allocated(segment)
            &&& 0 <= index < plan.segments.len()
            &&& plan.segments[index] == plan.unavailable[attempt.fresh.len() as int]
            &&& unit_bytes == plan.unit_bytes
            &&& next_of(attempt, event).0.fresh == attempt.fresh.push(segment)
        },
        attempt.stage == Stage::Allocate && event is Allocated ==> (next_of(
            attempt,
            event,
        ).1 is Write),
{
    let after = next_of(attempt, event).0;
    lemma_next_is_well_formed(attempt, event);
    if after.plan is Some {
        crate::repair::effects::law_readable_segments_are_unmarked(
            after.plan->0.segments,
            after.plan->0.unavailable,
        );
        crate::repair::effects::law_disks_are_of_the_segments(after.plan->0.segments);
        crate::repair::effects::law_disks_are_of_the_segments(after.fresh);
    }
    if attempt.stage == Stage::Allocate && event is Allocated {
        let plan = attempt.plan->0;
        let failed = plan.unavailable[attempt.fresh.len() as int];
        assert(plan.segments.contains(failed));
        let k = crate::repair::attempt::lemma_first_exists(plan.segments, failed, 0);
        lemma_first_index(plan.segments, failed, k);
    }
}

/// The strip is exchanged at its place and at the revision at which it was read. What
/// is told of a repair that is done are the failed segments and the bytes of as many.
pub proof fn law_repair_exchanges_its_strip(
    attempt: RepairAttemptModel,
    event: RepairEventModel,
)
    requires
        attempt.well_formed(),
        attempt.plan is Some ==> attempt.plan->0.strip_index <= u32::MAX,
    ensures
        next_of(attempt, event).1 matches RepairActionModel::Replace(exchange) ==> {
            &&& attempt.stage != Stage::Query
            &&& exchange.modify_ts == attempt.chunk->0.modify_ts
            &&& exchange.index == attempt.plan->0.strip_index
            &&& exchange.old_strip == attempt.chunk->0.strips[attempt.plan->0.strip_index]
            &&& attempt.stage == Stage::Write ==> exchange.chunk_id == attempt.payload.chunk_id
                && exchange.operation_id == attempt.operation_id
            &&& attempt.stage != Stage::Write ==> Some(exchange.chunk_id) == attempt.chunk->0.id
                && exchange.operation_id != attempt.operation_id
        },
        attempt.stage == Stage::Publish && event is Performed ==> (next_of(
            attempt,
            event,
        ).1 matches RepairActionModel::Finish(stats) && (attempt.plan->0.unavailable.len() <= u64::MAX
            ==> stats.segments == attempt.plan->0.unavailable.len()) && (
        attempt.plan->0.shard_bytes * attempt.plan->0.unavailable.len() <= u64::MAX ==> stats.bytes
            == attempt.plan->0.shard_bytes * attempt.plan->0.unavailable.len())),
        attempt.stage == Stage::Mark && event is Performed ==> (next_of(
            attempt,
            event,
        ).1 matches RepairActionModel::Fail(RepairRunModel::Retry(_))),
{
    if let RepairActionModel::Replace(exchange) = next_of(attempt, event).1 {
        let high = attempt.operation_id.high;
        assert(high ^ 0xfa11_ed00_0000_0002u64 != high) by (bit_vector);
        assert(clip_u32(attempt.plan->0.strip_index) == attempt.plan->0.strip_index);
    }
    if attempt.stage == Stage::Publish {
        assert(attempt.plan->0.shard_bytes * attempt.plan->0.unavailable.len() >= 0)
            by (nonlinear_arith);
    }
}

/// The segments are read in order, the marked ones left out; a coded strip is read whole,
/// and of a mirrored one nothing is read behind a copy that could be read. A place that
/// stands for a failed copy is one that was read, and a failed shard is the decoded one.
pub proof fn law_unmarked_segments_are_read_in_order(
    attempt: RepairAttemptModel,
    event: RepairEventModel,
)
    requires
        attempt.well_formed(),
    ensures
        next_of(attempt, event).1 matches RepairActionModel::Read { index, segment, unit_bytes } ==> {
            let marked = attempt.strip().unavailable_segments;
            let from: int = match event {
                RepairEventModel::Read(_) => attempt.read.len() as int + 1,
                _ => attempt.read.len() as int,
            };
            &&& from <= index < attempt.strip().segments().len()
            &&& segment == attempt.strip().segments()[index]
            &&& !marked.contains(segment)
            &&& forall|i: int|
                from <= i < index ==> marked.contains(#[trigger] attempt.strip().segments()[i])
            &&& unit_bytes == attempt.plan->0.unit_bytes
            &&& next_of(attempt, event).0.read.len() == index
            &&& forall|i: int|
                0 <= i < attempt.read.len() ==> #[trigger] next_of(attempt, event).0.read[i]
                    == attempt.read[i]
            &&& event matches RepairEventModel::Read(done) ==> next_of(
                attempt,
                event,
            ).0.read[attempt.read.len() as int] == done && !(done && (
            attempt.strip().strip matches Some(LayoutModel::Mirror { .. })))
        },
        attempt.stage == Stage::Read && (attempt.strip().strip is Some) ==> (
        event matches RepairEventModel::Read(done) && (!done || (
        attempt.strip().strip matches Some(LayoutModel::Ec { .. }))) && (exists|i: int|
            attempt.read.len() < i < attempt.strip().segments().len()
                && !attempt.strip().unavailable_segments.contains(
                #[trigger] attempt.strip().segments()[i],
            )) ==> (next_of(attempt, event).1 is Read)),
        next_of(attempt, event).1 matches RepairActionModel::Write { index, source, .. } ==> match attempt.strip().strip {
            Some(LayoutModel::Mirror { .. }) => 0 <= source < attempt.read.len()
                && attempt.read[source] && forall|i: int|
                0 <= i < source ==> !(#[trigger] attempt.read[i]),
            _ => source == index,
        },
        next_of(attempt, event).1 matches RepairActionModel::Decode { data_num, code_num } ==> (
        attempt.strip().strip matches Some(LayoutModel::Ec { data_num: d, code_num: c, .. })
            && data_num == d && code_num == c),
{
    let segments = attempt.strip().segments();
    let marked = attempt.strip().unavailable_segments;
    let from: int = match event {
        RepairEventModel::Read(_) => attempt.read.len() as int + 1,
        _ => attempt.read.len() as int,
    };
    if (attempt.stage == Stage::Read || attempt.stage == Stage::Reserve) && from
        <= segments.len() {
        lemma_next_unmarked_is_first(segments, marked, from);
    }
    if attempt.stage == Stage::Allocate && (attempt.strip().strip matches Some(
        LayoutModel::Mirror { .. },
    )) {
        let k = choose|k: int| 0 <= k < attempt.read.len() && attempt.read[k] == true;
        lemma_first_read_is_first(attempt.read, 0, k);
    }
}

proof fn lemma_next_unmarked_is_first(segments: Seq<Segment>, marked: Seq<Segment>, from: int)
    requires
        0 <= from <= segments.len(),
    ensures
        ({
            let index = next_unmarked(segments, marked, from);
            &&& from <= index <= segments.len()
            &&& index < segments.len() ==> !marked.contains(segments[index])
            &&& forall|i: int| from <= i < index ==> marked.contains(#[trigger] segments[i])
        }),
    decreases segments.len() - from,
{
    if from < segments.len() && marked.contains(segments[from]) {
        lemma_next_unmarked_is_first(segments, marked, from + 1);
    }
}

proof fn lemma_first_read_is_first(read: Seq<bool>, from: int, at: int)
    requires
        0 <= from <= at < read.len(),
        read[at],
    ensures
        ({
            let first = first_read(read, from);
            &&& from <= first <= at
            &&& read[first]
            &&& forall|i: int| from <= i < first ==> !(#[trigger] read[i])
        }),
    decreases at - from,
{
    if !read[from] {
        lemma_first_read_is_first(read, from + 1, at);
    }
}

} // verus!
