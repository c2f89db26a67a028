//! The order of work of a background conversion attempt.
use vstd::prelude::*;
use crate::arith::{clip_u64, sat_add_u64};
use crate::conversion::attempt::{
    abandon_replacement, abandoned, attempt_step, durable, readable, ConversionRunError,
    ConversionStep, MirrorToEcTaskHandler, RunErrorModel, StepModel,
};
use crate::conversion::coordinator::{is_ec, record_allocation, with_parity, with_replacement};
use crate::conversion::{
    countable, io_accounting, io_of, is_mirror, ConversionModel, MirrorToEcPhase, MirrorToEcTaskV1,
};
use crate::repair::attempt::lemma_readable_len;
use crate::text::text;
use crate::types::{
    copy_strips, strip_models, Chunk, ChunkId, ChunkModel, ChunkStrip, EcState, LayoutModel,
    Segment, Strip, StripModel,
};

verus! {

/// What an attempt waits for.
#[derive(Debug, Clone, Copy, PartialEq, Eq, Structural)]
pub enum Stage {
    /// The chunk.
    Query,
    /// The checkpoint with the place that the source moved to.
    Follow,
    /// A replacement strip.
    Allocate,
    /// The checkpoint with the replacement.
    Record,
    /// Leave to move the bytes.
    Throttle,
    /// The data of a source strip.
    Read,
    /// The parity.
    Encode,
    /// The shards in the replacement.
    Write,
    /// The checkpoint that says the shards are written.
    Keep,
    /// The replacement in the chunk.
    Publish,
    /// The checkpoint without the replacement, before the attempt fails.
    Abandon,
    /// Nothing: the attempt is over.
    Over,
}

/// What happened to the last action of an attempt.
#[derive(Debug)]
pub enum ConversionEvent {
    Loaded(Chunk),
    Allocated(ChunkStrip),
    /// The parity was computed: so many shards are there with the data.
    Encoded(usize),
    /// The action was done and has no result.
    Performed,
    /// The action failed with this text.
    Failed(String),
}

/// Model of an event.
pub enum ConversionEventModel {
    Loaded(ChunkModel),
    Allocated(StripModel),
    Encoded(int),
    Performed,
    Failed(Seq<char>),
}

impl View for ConversionEvent {
    type V = ConversionEventModel;

    open spec fn view(&self) -> ConversionEventModel {
        match self {
            ConversionEvent::Loaded(chunk) => ConversionEventModel::Loaded(chunk@),
            ConversionEvent::Allocated(strip) => ConversionEventModel::Allocated(strip@),
            ConversionEvent::Encoded(shards) => ConversionEventModel::Encoded(*shards as int),
            ConversionEvent::Performed => ConversionEventModel::Performed,
            ConversionEvent::Failed(error) => ConversionEventModel::Failed(error@),
        }
    }
}

/// A strip that takes the place of a range of strips.
#[derive(Debug)]
pub struct RangeExchange {
    pub chunk_id: ChunkId,
    pub expected_modify_ts: u64,
    pub start_index: u32,
    pub old_strips: Vec<ChunkStrip>,
    pub new_strip: ChunkStrip,
    pub operation_id: ChunkId,
}

/// Model of a range exchange.
pub struct RangeExchangeModel {
    pub chunk_id: ChunkId,
    pub expected_modify_ts: u64,
    pub start_index: u32,
    pub old_strips: Seq<StripModel>,
    pub new_strip: StripModel,
    pub operation_id: ChunkId,
}

impl View for RangeExchange {
    type V = RangeExchangeModel;

    open spec fn view(&self) -> RangeExchangeModel {
        RangeExchangeModel {
            chunk_id: self.chunk_id,
            expected_modify_ts: self.expected_modify_ts,
            start_index: self.start_index,
            old_strips: strip_models(self.old_strips@),
            new_strip: self.new_strip@,
            operation_id: self.operation_id,
        }
    }
}

/// What an attempt does next.
#[derive(Debug)]
pub enum ConversionAction {
    /// Load the chunk.
    Query(ChunkId),
    /// Store the checkpoint.
    Store(MirrorToEcTaskV1),
    /// Allocate an erasure-coded strip for the source.
    Allocate { chunk_id: ChunkId, old_strips: Vec<ChunkStrip>, data_num: u32, code_num: u32 },
    /// Wait for leave to move so many bytes.
    Throttle(u64),
    /// Read a copy of a source strip.
    Read { strip_index: usize, segment: Segment, unit_bytes: u64 },
    /// Compute the parity of what was read.
    Encode { data_num: u32, code_num: u32 },
    /// Write the shards to the segments and make them durable.
    Write { segments: Vec<Segment>, unit_bytes: u64 },
    /// Put the replacement in place of the source.
    Replace(RangeExchange),
    /// The attempt is over and the conversion complete.
    Finish,
    /// The attempt is over with an error.
    Fail(ConversionRunError),
    /// The event is not the one that was waited for.
    Ignore,
}

/// Model of an action.
pub enum ConversionActionModel {
    Query(ChunkId),
    Store(ConversionModel),
    Allocate { chunk_id: ChunkId, old_strips: Seq<StripModel>, data_num: u32, code_num: u32 },
    Throttle(u64),
    Read { strip_index: int, segment: Segment, unit_bytes: u64 },
    Encode { data_num: u32, code_num: u32 },
    Write { segments: Seq<Segment>, unit_bytes: u64 },
    Replace(RangeExchangeModel),
    Finish,
    Fail(RunErrorModel),
    Ignore,
}

impl View for ConversionAction {
    type V = ConversionActionModel;

    open spec fn view(&self) -> ConversionActionModel {
        match self {
            ConversionAction::Query(id) => ConversionActionModel::Query(*id),
            ConversionAction::Store(payload) => ConversionActionModel::Store(payload@),
            ConversionAction::Allocate { chunk_id, old_strips, data_num, code_num } =>
                ConversionActionModel::Allocate {
                chunk_id: *chunk_id,
                old_strips: strip_models(old_strips@),
                data_num: *data_num,
                code_num: *code_num,
            },
            ConversionAction::Throttle(bytes) => ConversionActionModel::Throttle(*bytes),
            ConversionAction::Read { strip_index, segment, unit_bytes } =>
                ConversionActionModel::Read {
                strip_index: *strip_index as int,
                segment: *segment,
                unit_bytes: *unit_bytes,
            },
            ConversionAction::Encode { data_num, code_num } => ConversionActionModel::Encode {
                data_num: *data_num,
                code_num: *code_num,
            },
            ConversionAction::Write { segments, unit_bytes } => ConversionActionModel::Write {
                segments: segments@,
                unit_bytes: *unit_bytes,
            },
            ConversionAction::Replace(exchange) => ConversionActionModel::Replace(exchange@),
            ConversionAction::Finish => ConversionActionModel::Finish,
            ConversionAction::Fail(error) => ConversionActionModel::Fail(error@),
            ConversionAction::Ignore => ConversionActionModel::Ignore,
        }
    }
}

/// An attempt: its checkpoint, how far the source is read, and what it waits for.
#[derive(Debug)]
pub struct ConversionAttempt {
    operation_id: ChunkId,
    payload: MirrorToEcTaskV1,
    strip_index: usize,
    tried: usize,
    last_error: Option<String>,
    encoded: Option<ChunkStrip>,
    failure: Option<ConversionRunError>,
    stage: Stage,
}

/// Model of an attempt.
pub struct ConversionAttemptModel {
    pub operation_id: ChunkId,
    pub payload: ConversionModel,
    pub strip_index: int,
    pub tried: int,
    pub last_error: Option<Seq<char>>,
    pub encoded: Option<StripModel>,
    pub failure: Option<RunErrorModel>,
    pub stage: Stage,
}

impl View for ConversionAttempt {
    type V = ConversionAttemptModel;

    closed spec fn view(&self) -> ConversionAttemptModel {
        ConversionAttemptModel {
            operation_id: self.operation_id,
            payload: self.payload@,
            strip_index: self.strip_index as int,
            tried: self.tried as int,
            last_error: match self.last_error {
                Some(error) => Some(error@),
                None => None,
            },
            encoded: match self.encoded {
                Some(strip) => Some(strip@),
                None => None,
            },
            failure: match self.failure {
                Some(error) => Some(error@),
                None => None,
            },
            stage: self.stage,
        }
    }
}

/// The copies of a source strip in the order in which they are tried.
pub open spec fn copies_to_read(strip: StripModel) -> Seq<Segment> {
    readable(strip.mirror_segments(), strip.unavailable_segments)
}

impl ConversionAttemptModel {
    /// What holds while the attempt waits in its stage.
    pub open spec fn well_formed(self) -> bool {
        &&& countable(self.payload.old_strips)
        &&& self.payload.old_strips.len() <= usize::MAX
        &&& match self.stage {
            Stage::Query | Stage::Follow | Stage::Allocate | Stage::Over => self.strip_index == 0
                && self.tried == 0 && self.last_error is None || self.stage == Stage::Over,
            Stage::Record | Stage::Throttle => self.strip_index == 0 && self.tried == 0
                && self.last_error is None && self.payload.replacement_strip is Some,
            Stage::Read => 0 <= self.strip_index < self.payload.old_strips.len() && 0 <= self.tried
                < copies_to_read(self.payload.old_strips[self.strip_index]).len()
                && self.payload.replacement_strip is Some,
            Stage::Encode => self.payload.replacement_strip is Some,
            Stage::Write => self.payload.replacement_strip is Some && self.encoded is Some,
            Stage::Keep | Stage::Publish => self.payload.replacement_strip is Some
                && self.payload.phase == MirrorToEcPhase::Durable,
            Stage::Abandon => self.failure is Some && self.payload.replacement_strip is None,
        }
    }
}

/// The attempt in another stage.
pub open spec fn in_stage(attempt: ConversionAttemptModel, stage: Stage) -> ConversionAttemptModel {
    ConversionAttemptModel { stage, ..attempt }
}

/// The attempt is over with an error.
pub open spec fn failing(attempt: ConversionAttemptModel, error: RunErrorModel) -> (
    ConversionAttemptModel,
    ConversionActionModel,
) {
    (in_stage(attempt, Stage::Over), ConversionActionModel::Fail(error))
}

/// Stores another checkpoint.
pub open spec fn storing(attempt: ConversionAttemptModel, payload: ConversionModel, stage: Stage) -> (
    ConversionAttemptModel,
    ConversionActionModel,
) {
    (
        ConversionAttemptModel { payload, stage, ..attempt },
        ConversionActionModel::Store(payload),
    )
}

/// Lets the replacement go before the attempt fails.
pub open spec fn giving_up(attempt: ConversionAttemptModel, error: RunErrorModel) -> (
    ConversionAttemptModel,
    ConversionActionModel,
) {
    storing(
        ConversionAttemptModel { failure: Some(error), ..attempt },
        abandoned(attempt.payload),
        Stage::Abandon,
    )
}

/// Goes on with a valid source: a missing replacement is allocated first.
pub open spec fn converting(attempt: ConversionAttemptModel) -> (
    ConversionAttemptModel,
    ConversionActionModel,
) {
    let payload = attempt.payload;
    if payload.replacement_strip is None {
        (
            in_stage(attempt, Stage::Allocate),
            ConversionActionModel::Allocate {
                chunk_id: payload.chunk_id,
                old_strips: payload.old_strips,
                data_num: payload.data_num,
                code_num: payload.code_num,
            },
        )
    } else {
        (
            in_stage(attempt, Stage::Throttle),
            ConversionActionModel::Throttle(
                clip_u64(io_of(payload).read_bytes + io_of(payload).write_bytes),
            ),
        )
    }
}

/// Reads the next copy of the source; the parity follows once every strip is read.
pub open spec fn reading(attempt: ConversionAttemptModel) -> (
    ConversionAttemptModel,
    ConversionActionModel,
) {
    let payload = attempt.payload;
    if attempt.strip_index >= payload.old_strips.len() {
        (
            in_stage(attempt, Stage::Encode),
            ConversionActionModel::Encode { data_num: payload.data_num, code_num: payload.code_num },
        )
    } else {
        let strip = payload.old_strips[attempt.strip_index];
        let copies = copies_to_read(strip);
        if !is_mirror(strip) {
            giving_up(attempt, RunErrorModel::Conflict)
        } else if attempt.tried < copies.len() {
            (
                in_stage(attempt, Stage::Read),
                ConversionActionModel::Read {
                    strip_index: attempt.strip_index,
                    segment: copies[attempt.tried],
                    unit_bytes: (strip.unit_kb * 1024) as u64,
                },
            )
        } else {
            giving_up(
                attempt,
                RunErrorModel::Retry(
                    match attempt.last_error {
                        Some(error) => error,
                        None => "mirror has no readable replica"@,
                    },
                ),
            )
        }
    }
}

/// Goes on once the parity is there: the replacement must have a segment for each shard.
pub open spec fn writing(attempt: ConversionAttemptModel, shards: int) -> (
    ConversionAttemptModel,
    ConversionActionModel,
) {
    match attempt.payload.replacement_strip {
        Some(replacement) => if is_ec(replacement) && replacement.segments().len() == shards {
            (
                ConversionAttemptModel {
                    encoded: Some(with_parity(replacement)),
                    stage: Stage::Write,
                    ..attempt
                },
                ConversionActionModel::Write {
                    segments: replacement.segments(),
                    unit_bytes: (replacement.unit_kb * 1024) as u64,
                },
            )
        } else {
            giving_up(attempt, RunErrorModel::Conflict)
        },
        None => giving_up(attempt, RunErrorModel::Conflict),
    }
}

/// Begins with the chunk.
pub open spec fn beginning(attempt: ConversionAttemptModel, chunk: ChunkModel) -> (
    ConversionAttemptModel,
    ConversionActionModel,
) {
    match attempt_step(chunk, attempt.payload) {
        StepModel::Installed => (in_stage(attempt, Stage::Over), ConversionActionModel::Finish),
        StepModel::Conflict => failing(attempt, RunErrorModel::Conflict),
        StepModel::Abandon { payload } => storing(
            ConversionAttemptModel { failure: Some(RunErrorModel::Conflict), ..attempt },
            payload,
            Stage::Abandon,
        ),
        StepModel::Convert { payload, moved } => if moved {
            storing(attempt, payload, Stage::Follow)
        } else {
            converting(attempt)
        },
    }
}

/// The attempt and its action after an event.
pub open spec fn next_of(attempt: ConversionAttemptModel, event: ConversionEventModel) -> (
    ConversionAttemptModel,
    ConversionActionModel,
) {
    let ignored = (attempt, ConversionActionModel::Ignore);
    match event {
        ConversionEventModel::Loaded(chunk) => if attempt.stage == Stage::Query {
            beginning(attempt, chunk)
        } else {
            ignored
        },
        ConversionEventModel::Allocated(strip) => if attempt.stage == Stage::Allocate {
            storing(attempt, with_replacement(attempt.payload, strip), Stage::Record)
        } else {
            ignored
        },
        ConversionEventModel::Encoded(shards) => if attempt.stage == Stage::Encode {
            writing(attempt, shards)
        } else {
            ignored
        },
        ConversionEventModel::Failed(error) => match attempt.stage {
            Stage::Read => reading(
                ConversionAttemptModel {
                    tried: attempt.tried + 1,
                    last_error: Some(error),
                    ..attempt
                },
            ),
            Stage::Encode | Stage::Write => giving_up(attempt, RunErrorModel::Retry(error)),
            _ => ignored,
        },
        ConversionEventModel::Performed => match attempt.stage {
            Stage::Follow | Stage::Record => converting(attempt),
            Stage::Throttle => reading(attempt),
            Stage::Read => reading(
                ConversionAttemptModel {
                    strip_index: attempt.strip_index + 1,
                    tried: 0,
                    last_error: None,
                    ..attempt
                },
            ),
            Stage::Write => storing(
                attempt,
                durable(attempt.payload, attempt.encoded->0),
                Stage::Keep,
            ),
            Stage::Keep => (
                in_stage(attempt, Stage::Publish),
                ConversionActionModel::Replace(
                    RangeExchangeModel {
                        chunk_id: attempt.payload.chunk_id,
                        expected_modify_ts: attempt.payload.expected_modify_ts,
                        start_index: attempt.payload.start_index,
                        old_strips: attempt.payload.old_strips,
                        new_strip: attempt.payload.replacement_strip->0,
                        operation_id: attempt.operation_id,
                    },
                ),
            ),
            Stage::Publish => (in_stage(attempt, Stage::Over), ConversionActionModel::Finish),
            Stage::Abandon => failing(
                ConversionAttemptModel { failure: None, ..attempt },
                attempt.failure->0,
            ),
            _ => ignored,
        },
    }
}

impl ConversionAttempt {
    /// An attempt from its checkpoint, and its first action.
    pub fn new(operation_id: ChunkId, payload: MirrorToEcTaskV1) -> (r: (
        ConversionAttempt,
        ConversionAction,
    ))
        requires
            countable(payload@.old_strips),
        ensures
            r.0@ == (ConversionAttemptModel {
                operation_id,
                payload: payload@,
                strip_index: 0,
                tried: 0,
                last_error: None,
                encoded: None,
                failure: None,
                stage: Stage::Query,
            }),
            r.0@.well_formed(),
            r.1@ == ConversionActionModel::Query(payload.chunk_id),
    {
        let chunk_id = payload.chunk_id;
        let attempt = ConversionAttempt {
            operation_id,
            payload,
            strip_index: 0,
            tried: 0,
            last_error: None,
            encoded: None,
            failure: None,
            stage: Stage::Query,
        };
        assert(attempt.payload.old_strips.len() <= usize::MAX);
        (attempt, ConversionAction::Query(chunk_id))
    }

    fn fail(&mut self, error: ConversionRunError) -> (r: ConversionAction)
        ensures
            (final(self)@, r@) == failing(old(self)@, error@),
    {
        self.stage = Stage::Over;
        ConversionAction::Fail(error)
    }

    fn store(&mut self, payload: MirrorToEcTaskV1, stage: Stage) -> (r: ConversionAction)
        ensures
            (final(self)@, r@) == storing(old(self)@, payload@, stage),
    {
        let copy = payload.clone();
        self.payload = payload;
        self.stage = stage;
        ConversionAction::Store(copy)
    }

    fn give_up(&mut self, error: ConversionRunError) -> (r: ConversionAction)
        requires
            old(self)@.payload.replacement_strip is Some,
        ensures
            (final(self)@, r@) == giving_up(old(self)@, error@),
    {
        self.failure = Some(error);
        match abandon_replacement(self.payload.clone()) {
            Ok(payload) => self.store(payload, Stage::Abandon),
            Err(_) => ConversionAction::Ignore,
        }
    }

    fn convert(&mut self) -> (r: ConversionAction)
        requires
            countable(old(self)@.payload.old_strips),
        ensures
            (final(self)@, r@) == converting(old(self)@),
    {
        if self.payload.replacement_strip.is_none() {
            let action = ConversionAction::Allocate {
                chunk_id: self.payload.chunk_id,
                old_strips: copy_strips(&self.payload.old_strips),
                data_num: self.payload.data_num,
                code_num: self.payload.code_num,
            };
            self.stage = Stage::Allocate;
            return action;
        }
        let amounts = io_accounting(&self.payload);
        self.stage = Stage::Throttle;
        ConversionAction::Throttle(sat_add_u64(amounts.read_bytes, amounts.write_bytes))
    }

    fn read(&mut self) -> (r: ConversionAction)
        requires
            old(self)@.payload.replacement_strip is Some,
            old(self)@.strip_index <= old(self)@.payload.old_strips.len(),
        ensures
            (final(self)@, r@) == reading(old(self)@),
    {
        if self.strip_index >= self.payload.old_strips.len() {
            self.stage = Stage::Encode;
            return ConversionAction::Encode {
                data_num: self.payload.data_num,
                code_num: self.payload.code_num,
            };
        }
        let strip = &self.payload.old_strips[self.strip_index];
        assert(old(self)@.payload.old_strips[self.strip_index as int] == strip@);
        match MirrorToEcTaskHandler::read_order(strip) {
            Err(error) => self.give_up(error),
            Ok(copies) => {
                if self.tried < copies.len() {
                    let action = ConversionAction::Read {
                        strip_index: self.strip_index,
                        segment: copies[self.tried],
                        unit_bytes: strip.unit_kb as u64 * 1024,
                    };
                    self.stage = Stage::Read;
                    return action;
                }
                let last_error: Option<String> = match &self.last_error {
                    Some(error) => Some(text(error.as_str())),
                    None => None,
                };
                self.give_up(MirrorToEcTaskHandler::unreadable(last_error))
            },
        }
    }

    fn write(&mut self, shards: usize) -> (r: ConversionAction)
        requires
            old(self)@.payload.replacement_strip is Some,
        ensures
            (final(self)@, r@) == writing(old(self)@, shards as int),
    {
        match MirrorToEcTaskHandler::encoded_replacement(&self.payload, shards) {
            Err(error) => self.give_up(error),
            Ok(strip) => {
                let segments = strip.extract_segments();
                assert(segments@ == old(self)@.payload.replacement_strip->0.segments());
                let unit_bytes: u64 = strip.unit_kb as u64 * 1024;
                self.encoded = Some(strip);
                self.stage = Stage::Write;
                ConversionAction::Write { segments, unit_bytes }
            },
        }
    }

    fn begin(&mut self, chunk: &Chunk) -> (r: ConversionAction)
        requires
            countable(old(self)@.payload.old_strips),
        ensures
            (final(self)@, r@) == beginning(old(self)@, chunk@),
    {
        match MirrorToEcTaskHandler::plan_attempt(chunk, self.payload.clone()) {
            ConversionStep::Installed => {
                self.stage = Stage::Over;
                ConversionAction::Finish
            },
            ConversionStep::Conflict => self.fail(ConversionRunError::Conflict),
            ConversionStep::Abandon { payload } => {
                self.failure = Some(ConversionRunError::Conflict);
                self.store(payload, Stage::Abandon)
            },
            ConversionStep::Convert { payload, moved } => {
                if moved {
                    return self.store(payload, Stage::Follow);
                }
                self.convert()
            },
        }
    }

    fn perform(&mut self) -> (r: ConversionAction)
        requires
            old(self)@.well_formed(),
        ensures
            (final(self)@, r@) == next_of(old(self)@, ConversionEventModel::Performed),
    {
        match self.stage {
            Stage::Follow | Stage::Record => self.convert(),
            Stage::Throttle => self.read(),
            Stage::Read => {
                self.strip_index = self.strip_index + 1;
                self.tried = 0;
                self.last_error = None;
                self.read()
            },
            Stage::Write => {
                let strip = match &self.encoded {
                    Some(strip) => strip.clone(),
                    None => {
                        return ConversionAction::Ignore;
                    },
                };
                let payload = MirrorToEcTaskHandler::record_durable(self.payload.clone(), strip);
                self.store(payload, Stage::Keep)
            },
            Stage::Keep => {
                let new_strip = match &self.payload.replacement_strip {
                    Some(strip) => strip.clone(),
                    None => {
                        return ConversionAction::Ignore;
                    },
                };
                let exchange = RangeExchange {
                    chunk_id: self.payload.chunk_id,
                    expected_modify_ts: self.payload.expected_modify_ts,
                    start_index: self.payload.start_index,
                    old_strips: copy_strips(&self.payload.old_strips),
                    new_strip,
                    operation_id: self.operation_id,
                };
                self.stage = Stage::Publish;
                ConversionAction::Replace(exchange)
            },
            Stage::Publish => {
                self.stage = Stage::Over;
                ConversionAction::Finish
            },
            Stage::Abandon => {
                let failure = self.failure.take();
                match failure {
                    Some(error) => self.fail(error),
                    None => ConversionAction::Ignore,
                }
            },
            _ => ConversionAction::Ignore,
        }
    }

    /// The next action of the attempt.
    pub fn step(&mut self, event: ConversionEvent) -> (r: ConversionAction)
        requires
            old(self)@.well_formed(),
        ensures
            (final(self)@, r@) == next_of(old(self)@, event@),
            final(self)@.well_formed(),
    {
        proof {
            lemma_next_is_well_formed(self@, event@);
        }
        match event {
            ConversionEvent::Loaded(chunk) => match self.stage {
                Stage::Query => self.begin(&chunk),
                _ => ConversionAction::Ignore,
            },
            ConversionEvent::Allocated(strip) => match self.stage {
                Stage::Allocate => {
                    let payload = record_allocation(self.payload.clone(), strip);
                    self.store(payload, Stage::Record)
                },
                _ => ConversionAction::Ignore,
            },
            ConversionEvent::Encoded(shards) => match self.stage {
                Stage::Encode => self.write(shards),
                _ => ConversionAction::Ignore,
            },
            ConversionEvent::Failed(error) => match self.stage {
                Stage::Read => {
                    proof {
                        let strip = self.payload.old_strips@[self.strip_index as int];
                        assert(self@.payload.old_strips[self.strip_index as int] == strip@);
                        lemma_readable_len(strip@.mirror_segments(), strip@.unavailable_segments);
                        assert(strip@.mirror_segments().len() <= usize::MAX) by {
                            match strip.strip {
                                Some(Strip::MirrorStrip(mirror)) => {
                                    assert(mirror.segments.len() <= usize::MAX);
                                },
                                _ => {},
                            }
                        }
                    }
                    self.tried = self.tried + 1;
                    self.last_error = Some(error);
                    self.read()
                },
                Stage::Encode | Stage::Write => self.give_up(ConversionRunError::Retry(error)),
                _ => ConversionAction::Ignore,
            },
            ConversionEvent::Performed => self.perform(),
        }
    }
}

proof fn lemma_next_is_well_formed(attempt: ConversionAttemptModel, event: ConversionEventModel)
    requires
        attempt.well_formed(),
    ensures
        next_of(attempt, event).0.well_formed(),
{
}

/// The source is replaced only once the shards are written and a checkpoint says so.
pub proof fn law_only_durable_shards_are_published(
    attempt: ConversionAttemptModel,
    event: ConversionEventModel,
)
    requires
        attempt.well_formed(),
        next_of(attempt, event).1 is Replace,
    ensures
        attempt.stage == Stage::Keep,
        attempt.payload.phase == MirrorToEcPhase::Durable,
        next_of(attempt, event).1->Replace_0.old_strips == attempt.payload.old_strips,
        Some(next_of(attempt, event).1->Replace_0.new_strip) == attempt.payload.replacement_strip,
{
}

/// An attempt whose source cannot be read or written lets its replacement go: the
/// stored checkpoint is that of a conversion not yet begun.
pub proof fn law_failed_conversion_keeps_nothing(
    attempt: ConversionAttemptModel,
    event: ConversionEventModel,
)
    requires
        attempt.well_formed(),
        next_of(attempt, event).0.stage == Stage::Abandon,
        attempt.stage != Stage::Abandon,
    ensures
        next_of(attempt, event).1 == ConversionActionModel::Store(abandoned(attempt.payload)),
        next_of(
            next_of(attempt, event).0,
            ConversionEventModel::Performed,
        ).1 is Fail,
{
}

/// A copy that is read is one of the source strip that is not marked. After a read
/// that was done comes the next source strip; after one that failed the next copy of the
/// same strip, and the attempt is given up where there is none. The shards are encoded
/// once every source strip was read.
pub proof fn law_every_source_is_read(
    attempt: ConversionAttemptModel,
    event: ConversionEventModel,
)
    requires
        attempt.well_formed(),
    ensures
        next_of(attempt, event).1 matches ConversionActionModel::Read {
            strip_index,
            segment,
            unit_bytes,
        } ==> {
            let strip = attempt.payload.old_strips[strip_index];
            &&& 0 <= strip_index < attempt.payload.old_strips.len()
            &&& strip.strip matches Some(LayoutModel::Mirror { segments })
            &&& segments.contains(segment)
            &&& !strip.unavailable_segments.contains(segment)
            &&& unit_bytes == strip.unit_kb * 1024
            &&& attempt.stage == Stage::Throttle ==> strip_index == 0
            &&& attempt.stage == Stage::Read && event is Performed ==> strip_index
                == attempt.strip_index + 1
            &&& attempt.stage == Stage::Read && event is Failed ==> strip_index
                == attempt.strip_index
        },
        next_of(attempt, event).1 matches ConversionActionModel::Encode { data_num, code_num } ==> {
            &&& data_num == attempt.payload.data_num
            &&& code_num == attempt.payload.code_num
            &&& event is Performed
            &&& attempt.payload.old_strips.len() == 0 || (attempt.stage == Stage::Read
                && attempt.strip_index + 1 == attempt.payload.old_strips.len())
        },
        attempt.stage == Stage::Read && event is Performed && attempt.strip_index + 1
            == attempt.payload.old_strips.len() ==> (next_of(attempt, event).1 is Encode),
        attempt.stage == Stage::Read && event is Failed ==> (next_of(attempt, event).1 is Read)
            == (attempt.tried + 1 < attempt.payload.old_strips[attempt.strip_index].mirror_segments().filter(
            |s: Segment|
                !attempt.payload.old_strips[attempt.strip_index].unavailable_segments.contains(s),
        ).len()),
{
    let strips = attempt.payload.old_strips;
    let index = if attempt.stage == Stage::Read && event is Performed {
        attempt.strip_index + 1
    } else {
        attempt.strip_index
    };
    if 0 <= index < strips.len() {
        let strip = strips[index];
        crate::repair::effects::law_readable_segments_are_unmarked(
            strip.mirror_segments(),
            strip.unavailable_segments,
        );
        if let ConversionActionModel::Read { segment, .. } = next_of(attempt, event).1 {
            let copies = copies_to_read(strip);
            assert(copies.contains(segment));
            crate::repair::attempt::lemma_readable_contains(
                strip.mirror_segments(),
                strip.unavailable_segments,
                segment,
            );
        }
    }
    if attempt.stage == Stage::Read {
        crate::repair::effects::law_readable_segments_are_unmarked(
            strips[attempt.strip_index].mirror_segments(),
            strips[attempt.strip_index].unavailable_segments,
        );
        if event is Failed {
            assert(is_mirror(strips[attempt.strip_index])) by {
                if !is_mirror(strips[attempt.strip_index]) {
                    assert(strips[attempt.strip_index].mirror_segments().len() == 0);
                }
            }
        }
    }
}

/// The shards are written, one for each segment of the replacement, and to these
/// segments. The checkpoint that follows holds the replacement with its parity, told as
/// durable; and what then replaces the source is this strip, at the place and the
/// revision of the source.
pub proof fn law_shards_go_to_the_replacement(
    attempt: ConversionAttemptModel,
    event: ConversionEventModel,
)
    requires
        attempt.well_formed(),
    ensures
        next_of(attempt, event).1 matches ConversionActionModel::Write { segments, unit_bytes } ==> {
            &&& attempt.stage == Stage::Encode
            &&& event == ConversionEventModel::Encoded(segments.len() as int)
            &&& attempt.payload.replacement_strip matches Some(strip)
            &&& strip.strip matches Some(LayoutModel::Ec { segments: shards, data_num, code_num, .. })
            &&& segments == shards
            &&& unit_bytes == strip.unit_kb * 1024
            &&& next_of(attempt, event).0.encoded == Some(
                StripModel {
                    strip: Some(
                        LayoutModel::Ec {
                            data_num,
                            code_num,
                            ec_state: EcState::Parity,
                            segments: shards,
                        },
                    ),
                    ..strip
                },
            )
        },
        attempt.stage == Stage::Write && event is Performed ==> next_of(attempt, event).1
            == ConversionActionModel::Store(
            ConversionModel {
                replacement_strip: attempt.encoded,
                phase: MirrorToEcPhase::Durable,
                ..attempt.payload
            },
        ),
        next_of(attempt, event).1 matches ConversionActionModel::Replace(exchange) ==> {
            &&& exchange.chunk_id == attempt.payload.chunk_id
            &&& exchange.expected_modify_ts == attempt.payload.expected_modify_ts
            &&& exchange.start_index == attempt.payload.start_index
            &&& exchange.old_strips == attempt.payload.old_strips
            &&& Some(exchange.new_strip) == attempt.payload.replacement_strip
            &&& exchange.operation_id == attempt.operation_id
        },
        next_of(attempt, event).1 matches ConversionActionModel::Allocate {
            chunk_id,
            old_strips,
            data_num,
            code_num,
        } ==> old_strips == next_of(attempt, event).0.payload.old_strips && data_num
            == next_of(attempt, event).0.payload.data_num && code_num == next_of(
            attempt,
            event,
        ).0.payload.code_num && chunk_id == next_of(attempt, event).0.payload.chunk_id,
        attempt.stage == Stage::Allocate && event is Allocated ==> next_of(attempt, event).1
            == ConversionActionModel::Store(
            ConversionModel {
                replacement_strip: Some(event->Allocated_0),
                phase: MirrorToEcPhase::Allocated,
                ..attempt.payload
            },
        ),
        next_of(attempt, event).1 is Finish ==> attempt.stage == Stage::Publish || attempt.stage
            == Stage::Query,
{
}

} // verus!
