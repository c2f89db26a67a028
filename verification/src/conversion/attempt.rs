//! One background attempt of a conversion.
use vstd::prelude::*;
use crate::arith::sat_mul_u64;
use crate::conversion::bandwidth::BandwidthLimiter;
use crate::conversion::coordinator::{
    checkpoint_task, is_ec, mark_parity, with_checkpoint, with_parity,
};
use crate::conversion::{
    is_mirror, lemma_window_from, locate_source, source_now, source_valid, validate_source, ConversionError,
    ConversionErrorModel, ConversionModel, MirrorToEcPhase, MirrorToEcTaskV1,
    MIRROR_TO_EC_TASK_VERSION,
};
use crate::lifecycle::error::{LifecycleError, LifecycleErrorModel};
use crate::lifecycle::handler::replaced;
use crate::task::executor::{OutcomeModel, TaskOutcome};
use crate::task::manager::{claim_owned, owns_claim, stored_model};
use crate::task::store::{TaskStoreError, TaskStoreErrorModel};
use crate::task::{ChunkTaskValue, TaskKind, TaskModel};
use crate::text::text;
use crate::types::{
    contains_segment, Chunk, ChunkId, ChunkModel, ChunkStrip, Segment, Strip, StripModel,
};

verus! {

/// Bytes of a mebibyte.
pub const MIB: u64 = 1_048_576;

/// Pause before a conversion is tried again.
pub const CONVERSION_RETRY_MS: u64 = 100;

/// Why an attempt ended.
#[derive(Debug)]
pub enum ConversionRunError {
    Lifecycle(LifecycleError),
    Store(TaskStoreError),
    Conversion(ConversionError),
    Conflict,
    Retry(String),
}

/// Model of a run error.
pub enum RunErrorModel {
    Lifecycle(LifecycleErrorModel),
    Store(TaskStoreErrorModel),
    Conversion(ConversionErrorModel),
    Conflict,
    Retry(Seq<char>),
}

impl View for ConversionRunError {
    type V = RunErrorModel;

    open spec fn view(&self) -> RunErrorModel {
        match self {
            ConversionRunError::Lifecycle(e) => RunErrorModel::Lifecycle(e@),
            ConversionRunError::Store(e) => RunErrorModel::Store(e@),
            ConversionRunError::Conversion(e) => RunErrorModel::Conversion(e@),
            ConversionRunError::Conflict => RunErrorModel::Conflict,
            ConversionRunError::Retry(m) => RunErrorModel::Retry(m@),
        }
    }
}

impl RunErrorModel {
    /// Text of the error.
    pub open spec fn message(self) -> Seq<char> {
        match self {
            RunErrorModel::Lifecycle(e) => e.message(),
            RunErrorModel::Store(e) => e.message(),
            RunErrorModel::Conversion(e) => e.message(),
            RunErrorModel::Conflict => "conversion source changed"@,
            RunErrorModel::Retry(m) => m,
        }
    }
}

impl ConversionRunError {
    /// Text of the error.
    pub fn message(&self) -> (r: String)
        ensures
            r@ == self@.message(),
    {
        match self {
            ConversionRunError::Lifecycle(e) => e.message(),
            ConversionRunError::Store(e) => e.message(),
            ConversionRunError::Conversion(e) => e.message(),
            ConversionRunError::Conflict => text("conversion source changed"),
            ConversionRunError::Retry(m) => text(m.as_str()),
        }
    }
}

/// The chunk holds the replacement of the conversion.
pub open spec fn is_installed(chunk: ChunkModel, payload: ConversionModel) -> bool {
    payload.replacement_strip is Some && chunk.strips.contains(payload.replacement_strip->0)
}

/// Whether the chunk holds the replacement of the conversion.
pub fn installed(chunk: &Chunk, payload: &MirrorToEcTaskV1) -> (r: bool)
    ensures
        r == is_installed(chunk@, payload@),
{
    let replacement = match &payload.replacement_strip {
        Some(strip) => strip,
        None => {
            return false;
        },
    };
    let mut i: usize = 0;
    while i < chunk.strips.len()
        invariant
            i <= chunk.strips.len(),
            payload@.replacement_strip == Some(replacement@),
            forall|j: int| 0 <= j < i ==> (#[trigger] chunk.strips@[j])@ != replacement@,
        decreases chunk.strips.len() - i,
    {
        if chunk.strips[i].same(replacement) {
            assert(chunk@.strips[i as int] == replacement@);
            return true;
        }
        i = i + 1;
    }
    proof {
        if chunk@.strips.contains(replacement@) {
            let k = choose|k: int| 0 <= k < chunk@.strips.len() && chunk@.strips[k] == replacement@;
            assert(chunk.strips@[k]@ == replacement@);
        }
    }
    false
}

/// What an attempt has to do.
#[derive(Debug)]
pub enum ConversionStep {
    /// The replacement is in place: the task is complete.
    Installed,
    /// Convert with this checkpoint, which is to be stored first where the
    /// source moved.
    Convert { payload: MirrorToEcTaskV1, moved: bool },
    /// The source is gone: store the checkpoint, which lets the allocated
    /// replacement go, and give up.
    Abandon { payload: MirrorToEcTaskV1 },
    /// The source is gone and nothing is allocated: give up.
    Conflict,
}

/// Model of a step.
pub enum StepModel {
    Installed,
    Convert { payload: ConversionModel, moved: bool },
    Abandon { payload: ConversionModel },
    Conflict,
}

impl View for ConversionStep {
    type V = StepModel;

    open spec fn view(&self) -> StepModel {
        match self {
            ConversionStep::Installed => StepModel::Installed,
            ConversionStep::Convert { payload, moved } => StepModel::Convert {
                payload: payload@,
                moved: *moved,
            },
            ConversionStep::Abandon { payload } => StepModel::Abandon { payload: payload@ },
            ConversionStep::Conflict => StepModel::Conflict,
        }
    }
}

/// The checkpoint once the allocated replacement is let go.
pub open spec fn abandoned(payload: ConversionModel) -> ConversionModel {
    ConversionModel {
        replacement_strip: None,
        phase: MirrorToEcPhase::Discovered,
        ..payload
    }
}

/// Lets the allocated replacement go, which must be there.
pub fn abandon_replacement(payload: MirrorToEcTaskV1) -> (r: Result<
    MirrorToEcTaskV1,
    ConversionRunError,
>)
    ensures
        match r {
            Ok(next) => payload@.replacement_strip is Some && next@ == abandoned(payload@),
            Err(error) => payload@.replacement_strip is None && error@ == RunErrorModel::Conflict,
        },
{
    let mut next = payload;
    if next.replacement_strip.is_none() {
        return Err(ConversionRunError::Conflict);
    }
    next.replacement_strip = None;
    next.phase = MirrorToEcPhase::Discovered;
    Ok(next)
}

/// What an attempt has to do, from the chunk's record and the checkpoint.
pub open spec fn attempt_step(chunk: ChunkModel, payload: ConversionModel) -> StepModel {
    if is_installed(chunk, payload) {
        StepModel::Installed
    } else if source_valid(
        chunk,
        payload.expected_modify_ts,
        payload.start_index as int,
        payload.old_strips,
    ) {
        StepModel::Convert { payload, moved: false }
    } else {
        match source_now(chunk, payload.old_strips) {
            Some(start_index) => StepModel::Convert {
                payload: ConversionModel {
                    expected_modify_ts: chunk.modify_ts,
                    start_index,
                    ..payload
                },
                moved: true,
            },
            None => if payload.replacement_strip is Some {
                StepModel::Abandon { payload: abandoned(payload) }
            } else {
                StepModel::Conflict
            },
        }
    }
}

/// The checkpoint once the shards are written.
pub open spec fn durable(payload: ConversionModel, replacement: StripModel) -> ConversionModel {
    ConversionModel {
        replacement_strip: Some(replacement),
        phase: MirrorToEcPhase::Durable,
        ..payload
    }
}

/// The copies of a strip that can be read, in order.
pub open spec fn readable(segments: Seq<Segment>, unavailable: Seq<Segment>) -> Seq<Segment>
    decreases segments.len(),
{
    if segments.len() == 0 {
        Seq::empty()
    } else {
        let front = readable(segments.drop_last(), unavailable);
        if unavailable.contains(segments.last()) {
            front
        } else {
            front.push(segments.last())
        }
    }
}

/// The segments that are not marked unavailable, in order.
pub fn readable_segments(segments: &[Segment], unavailable: &[Segment]) -> (r: Vec<Segment>)
    ensures
        r@ == readable(segments@, unavailable@),
{
    let mut out: Vec<Segment> = Vec::new();
    let mut i: usize = 0;
    while i < segments.len()
        invariant
            i <= segments.len(),
            out@ == readable(segments@.take(i as int), unavailable@),
        decreases segments.len() - i,
    {
        proof {
            assert(segments@.take(i + 1).drop_last() =~= segments@.take(i as int));
            assert(segments@.take(i + 1).last() == segments@[i as int]);
        }
        if !contains_segment(unavailable, &segments[i]) {
            out.push(segments[i]);
        }
        i = i + 1;
    }
    assert(segments@.take(i as int) =~= segments@);
    out
}

/// Runs background conversions within a byte rate.
#[derive(Debug)]
pub struct MirrorToEcTaskHandler {
    pub bandwidth: BandwidthLimiter,
    pub max_concurrency: usize,
}

impl MirrorToEcTaskHandler {
    /// A handler with a byte rate in MiB a second; at least one conversion runs
    /// at a time.
    pub fn new(max_bandwidth_mbps: u64, max_concurrency: usize) -> (r: Self)
        ensures
            r.bandwidth.bytes_per_second == (if max_bandwidth_mbps == 0 {
                1
            } else {
                crate::arith::clip_u64(max_bandwidth_mbps * MIB)
            }),
            r.bandwidth.next_available_ns == 0,
            r.max_concurrency == (if max_concurrency == 0 {
                1
            } else {
                max_concurrency
            }),
    {
        assert(max_bandwidth_mbps > 0 ==> max_bandwidth_mbps * MIB > 0) by (nonlinear_arith);
        assert(max_bandwidth_mbps == 0 ==> max_bandwidth_mbps * MIB == 0) by (nonlinear_arith);
        MirrorToEcTaskHandler {
            bandwidth: BandwidthLimiter::new(sat_mul_u64(max_bandwidth_mbps, MIB)),
            max_concurrency: if max_concurrency == 0 {
                1
            } else {
                max_concurrency
            },
        }
    }

    /// Kind of the tasks that it runs.
    pub fn kind(&self) -> (r: TaskKind)
        ensures
            r == TaskKind::MirrorToEc,
    {
        TaskKind::MirrorToEc
    }

    /// Whether it can read checkpoints of a version.
    pub fn supports_version(&self, version: u16) -> (r: bool)
        ensures
            r == (version == MIRROR_TO_EC_TASK_VERSION),
    {
        version == MIRROR_TO_EC_TASK_VERSION
    }

    /// Checks that a task still runs under the claim of an earlier record of it.
    pub fn check_claim(stored: Option<&ChunkTaskValue>, claimed: &ChunkTaskValue) -> (r: Result<
        (),
        ConversionRunError,
    >)
        ensures
            match r {
                Ok(_) => stored is Some && claim_owned(
                    stored->0@,
                    claimed.claim_owner,
                    claimed.claim_generation,
                ),
                Err(error) => error@ == RunErrorModel::Conflict && (stored is None || !claim_owned(
                    stored->0@,
                    claimed.claim_owner,
                    claimed.claim_generation,
                )),
            },
    {
        match stored {
            Some(task) => if owns_claim(task, claimed.claim_owner, claimed.claim_generation) {
                Ok(())
            } else {
                Err(ConversionRunError::Conflict)
            },
            None => Err(ConversionRunError::Conflict),
        }
    }

    /// Stores a checkpoint in a task that still runs under the claim.
    pub fn checkpoint(
        stored: Option<&ChunkTaskValue>,
        previous: &ChunkTaskValue,
        payload: Vec<u8>,
        now_ms: u64,
    ) -> (r: Result<ChunkTaskValue, ConversionRunError>)
        ensures
            (match r {
                Ok(task) => Ok::<TaskModel, RunErrorModel>(task@),
                Err(error) => Err(error@),
            }) == (match stored_model(stored) {
                Some(task) => if claim_owned(
                    task,
                    previous.claim_owner,
                    previous.claim_generation,
                ) {
                    Ok(with_checkpoint(task, payload@, now_ms))
                } else {
                    Err(RunErrorModel::Conflict)
                },
                None => Err(RunErrorModel::Conflict),
            }),
    {
        match stored {
            Some(task) => if owns_claim(task, previous.claim_owner, previous.claim_generation) {
                Ok(checkpoint_task(task, payload, now_ms))
            } else {
                Err(ConversionRunError::Conflict)
            },
            None => Err(ConversionRunError::Conflict),
        }
    }

    /// Decides what an attempt has to do.
    pub fn plan_attempt(chunk: &Chunk, payload: MirrorToEcTaskV1) -> (r: ConversionStep)
        ensures
            r@ == attempt_step(chunk@, payload@),
    {
        if installed(chunk, &payload) {
            return ConversionStep::Installed;
        }
        match validate_source(
            chunk,
            payload.expected_modify_ts,
            payload.start_index,
            &payload.old_strips,
        ) {
            Ok(_) => {
                return ConversionStep::Convert { payload, moved: false };
            },
            Err(_) => {},
        }
        match locate_source(chunk, &payload.old_strips) {
            Some(start_index) => {
                let mut payload = payload;
                payload.expected_modify_ts = chunk.modify_ts;
                payload.start_index = start_index;
                ConversionStep::Convert { payload, moved: true }
            },
            None => match abandon_replacement(payload) {
                Ok(payload) => ConversionStep::Abandon { payload },
                Err(_) => ConversionStep::Conflict,
            },
        }
    }

    /// The copies of a mirrored strip to read from, in the order in which they
    /// are tried.
    pub fn read_order(strip: &ChunkStrip) -> (r: Result<Vec<Segment>, ConversionRunError>)
        ensures
            match r {
                Ok(segments) => is_mirror(strip@) && segments@ == readable(
                    strip@.mirror_segments(),
                    strip@.unavailable_segments,
                ),
                Err(error) => !is_mirror(strip@) && error@ == RunErrorModel::Conflict,
            },
    {
        match &strip.strip {
            Some(Strip::MirrorStrip(mirror)) => Ok(
                readable_segments(&mirror.segments, &strip.unavailable_segments),
            ),
            _ => Err(ConversionRunError::Conflict),
        }
    }

    /// The error where no copy could be read: that of the last read, if any was
    /// tried.
    pub fn unreadable(last_error: Option<String>) -> (r: ConversionRunError)
        ensures
            r@ == RunErrorModel::Retry(
                match last_error {
                    Some(error) => error@,
                    None => "mirror has no readable replica"@,
                },
            ),
    {
        match last_error {
            Some(error) => ConversionRunError::Retry(error),
            None => ConversionRunError::Retry(text("mirror has no readable replica")),
        }
    }

    /// The replacement as it stands once its shards are written: it must be
    /// erasure-coded over exactly so many segments.
    pub fn encoded_replacement(payload: &MirrorToEcTaskV1, shards: usize) -> (r: Result<
        ChunkStrip,
        ConversionRunError,
    >)
        ensures
            match r {
                Ok(strip) => payload@.replacement_strip is Some && is_ec(
                    payload@.replacement_strip->0,
                ) && payload@.replacement_strip->0.segments().len() == shards && strip@
                    == with_parity(payload@.replacement_strip->0),
                Err(error) => error@ == RunErrorModel::Conflict && (payload@.replacement_strip is None
                    || !is_ec(payload@.replacement_strip->0)
                    || payload@.replacement_strip->0.segments().len() != shards),
            },
    {
        let strip = match &payload.replacement_strip {
            Some(strip) => strip,
            None => {
                return Err(ConversionRunError::Conflict);
            },
        };
        match &strip.strip {
            Some(Strip::EcStrip(ec)) => {
                if ec.segments.len() != shards {
                    return Err(ConversionRunError::Conflict);
                }
            },
            _ => {
                return Err(ConversionRunError::Conflict);
            },
        }
        match mark_parity(strip) {
            Some(next) => Ok(next),
            None => Err(ConversionRunError::Conflict),
        }
    }

    /// The checkpoint once the shards are written.
    pub fn record_durable(payload: MirrorToEcTaskV1, replacement: ChunkStrip) -> (r: MirrorToEcTaskV1)
        ensures
            r@ == durable(payload@, replacement@),
    {
        let mut next = payload;
        next.replacement_strip = Some(replacement);
        next.phase = MirrorToEcPhase::Durable;
        next
    }

    /// How an attempt ends for its task.
    pub fn outcome(result: Result<(), ConversionRunError>) -> (r: TaskOutcome)
        ensures
            r@ == (match result {
                Ok(_) => OutcomeModel::Complete,
                Err(error) => match error@ {
                    RunErrorModel::Conflict => OutcomeModel::Fail {
                        error_code: 10,
                        error: "conversion source changed"@,
                    },
                    other => OutcomeModel::Retry {
                        delay_ms: CONVERSION_RETRY_MS,
                        error_code: 11,
                        error: other.message(),
                    },
                },
            }),
    {
        match result {
            Ok(_) => TaskOutcome::Complete,
            Err(ConversionRunError::Conflict) => TaskOutcome::Fail {
                error_code: 10,
                error: text("conversion source changed"),
            },
            Err(error) => TaskOutcome::Retry {
                delay_ms: CONVERSION_RETRY_MS,
                error_code: 11,
                error: error.message(),
            },
        }
    }

    /// How a task ends that finds the handler stopped.
    pub fn stopped() -> (r: TaskOutcome)
        ensures
            r@ == (OutcomeModel::Retry {
                delay_ms: CONVERSION_RETRY_MS,
                error_code: 12,
                error: "conversion executor stopped"@,
            }),
    {
        TaskOutcome::Retry {
            delay_ms: CONVERSION_RETRY_MS,
            error_code: 12,
            error: text("conversion executor stopped"),
        }
    }
}

/// Once a conversion is published, another attempt of its task finds it
/// installed and changes nothing.
pub proof fn law_published_conversion_is_installed(
    chunk: ChunkModel,
    payload: ConversionModel,
    replacement: StripModel,
    next_strip_sequence: u32,
    operation_id: ChunkId,
    not_before_ms: u64,
)
    requires
        source_valid(
            chunk,
            payload.expected_modify_ts,
            payload.start_index as int,
            payload.old_strips,
        ),
    ensures
        attempt_step(
            replaced(
                chunk,
                payload.start_index as int,
                payload.start_index + payload.old_strips.len(),
                seq![replacement],
                next_strip_sequence,
                operation_id,
                not_before_ms,
            ),
            durable(payload, replacement),
        ) == StepModel::Installed,
{
    let start = payload.start_index as int;
    let end = start + payload.old_strips.len();
    let strips = chunk.strips.take(start) + seq![replacement] + chunk.strips.skip(end);
    assert(strips[start] == replacement);
}

/// An attempt that goes on does so on a valid source, wherever it stands now.
pub proof fn law_attempt_has_valid_source(chunk: ChunkModel, payload: ConversionModel)
    ensures
        attempt_step(chunk, payload) matches StepModel::Convert { payload: next, .. }
            ==> source_valid(
            chunk,
            next.expected_modify_ts,
            next.start_index as int,
            next.old_strips,
        ) && next.old_strips == payload.old_strips && next.replacement_strip
            == payload.replacement_strip,
{
    lemma_window_from(chunk.strips, payload.old_strips, 0);
}

/// A conversion is done where the chunk holds its replacement. Otherwise it goes on
/// with the source where that is, wherever it moved to, keeping all else of its
/// checkpoint; and without a source it gives its replacement up, or is refused where it
/// has none.
pub proof fn law_attempts_follow_their_source(chunk: ChunkModel, payload: ConversionModel)
    ensures
        ({
            let installed = payload.replacement_strip is Some && exists|i: int|
                0 <= i < chunk.strips.len() && (#[trigger] chunk.strips[i])
                    == payload.replacement_strip->0;
            match attempt_step(chunk, payload) {
                StepModel::Installed => installed,
                StepModel::Convert { payload: next, moved } => {
                    &&& !installed
                    &&& !moved ==> next == payload
                    &&& moved ==> next.expected_modify_ts == chunk.modify_ts
                    &&& next == ConversionModel {
                        expected_modify_ts: next.expected_modify_ts,
                        start_index: next.start_index,
                        ..payload
                    }
                    &&& next.start_index + payload.old_strips.len() <= chunk.strips.len()
                    &&& chunk.strips.subrange(
                        next.start_index as int,
                        next.start_index + payload.old_strips.len(),
                    ) == payload.old_strips
                },
                StepModel::Abandon { payload: next } => {
                    &&& !installed
                    &&& payload.replacement_strip is Some
                    &&& next.replacement_strip is None
                    &&& next.phase == MirrorToEcPhase::Discovered
                    &&& next == ConversionModel {
                        replacement_strip: next.replacement_strip,
                        phase: next.phase,
                        ..payload
                    }
                },
                StepModel::Conflict => payload.replacement_strip is None,
            }
        }),
{
    lemma_window_from(chunk.strips, payload.old_strips, 0);
    if payload.replacement_strip is Some && chunk.strips.contains(payload.replacement_strip->0) {
        let i = choose|i: int|
            0 <= i < chunk.strips.len() && chunk.strips[i] == payload.replacement_strip->0;
        assert(chunk.strips[i] == payload.replacement_strip->0);
    }
}

} // verus!
