//! Conversion of mirrored strips into one erasure-coded strip.
use vstd::prelude::*;
use crate::arith::{clip_u32, clip_u64, rotate_left_u64, rotated_left, sat_add_u32, sat_add_u64, sat_mul_u64};
use crate::lifecycle::error::{LifecycleError, LifecycleErrorModel};
use crate::task::store::{TaskStoreError, TaskStoreErrorModel};
use crate::text::text;
use crate::types::{
    copy_strips, lemma_capacity_of_prefix, strip_models, strip_option_model, strips_at,
    total_capacity, Chunk, ChunkId, ChunkModel, ChunkState, ChunkStrip, LayoutModel, Strip,
    StripModel,
};

pub mod attempt;
pub mod bandwidth;
pub mod coordinator;
pub mod effects;
pub mod io;
pub mod run;

verus! {

/// Version of the conversion checkpoint.
pub const MIRROR_TO_EC_TASK_VERSION: u16 = 1;

/// How far a conversion is.
#[derive(Debug, Clone, Copy, PartialEq, Eq, Structural)]
pub enum MirrorToEcPhase {
    Discovered,
    Allocated,
    Durable,
    Published,
}

/// Checkpoint of a conversion.
#[derive(Debug)]
pub struct MirrorToEcTaskV1 {
    pub chunk_id: ChunkId,
    pub expected_modify_ts: u64,
    pub start_index: u32,
    pub old_strips: Vec<ChunkStrip>,
    pub data_num: u32,
    pub code_num: u32,
    pub replacement_strip: Option<ChunkStrip>,
    pub phase: MirrorToEcPhase,
}

/// Model of a conversion checkpoint.
pub struct ConversionModel {
    pub chunk_id: ChunkId,
    pub expected_modify_ts: u64,
    pub start_index: u32,
    pub old_strips: Seq<StripModel>,
    pub data_num: u32,
    pub code_num: u32,
    pub replacement_strip: Option<StripModel>,
    pub phase: MirrorToEcPhase,
}

impl View for MirrorToEcTaskV1 {
    type V = ConversionModel;

    open spec fn view(&self) -> ConversionModel {
        ConversionModel {
            chunk_id: self.chunk_id,
            expected_modify_ts: self.expected_modify_ts,
            start_index: self.start_index,
            old_strips: strip_models(self.old_strips@),
            data_num: self.data_num,
            code_num: self.code_num,
            replacement_strip: strip_option_model(self.replacement_strip),
            phase: self.phase,
        }
    }
}

impl Clone for MirrorToEcTaskV1 {
    fn clone(&self) -> (r: Self)
        ensures
            r@ == self@,
    {
        MirrorToEcTaskV1 {
            chunk_id: self.chunk_id,
            expected_modify_ts: self.expected_modify_ts,
            start_index: self.start_index,
            old_strips: copy_strips(&self.old_strips),
            data_num: self.data_num,
            code_num: self.code_num,
            replacement_strip: match &self.replacement_strip {
                Some(strip) => Some(strip.clone()),
                None => None,
            },
            phase: self.phase,
        }
    }
}

/// Conversion error.
#[derive(Debug)]
pub enum ConversionError {
    Lifecycle(LifecycleError),
    TaskStore(TaskStoreError),
    Payload(String),
    Conflict,
    StaleClaim,
}

/// Model of a conversion error.
pub enum ConversionErrorModel {
    Lifecycle(LifecycleErrorModel),
    TaskStore(TaskStoreErrorModel),
    Payload(Seq<char>),
    Conflict,
    StaleClaim,
}

impl View for ConversionError {
    type V = ConversionErrorModel;

    open spec fn view(&self) -> ConversionErrorModel {
        match self {
            ConversionError::Lifecycle(e) => ConversionErrorModel::Lifecycle(e@),
            ConversionError::TaskStore(e) => ConversionErrorModel::TaskStore(e@),
            ConversionError::Payload(m) => ConversionErrorModel::Payload(m@),
            ConversionError::Conflict => ConversionErrorModel::Conflict,
            ConversionError::StaleClaim => ConversionErrorModel::StaleClaim,
        }
    }
}

impl ConversionErrorModel {
    /// Text of the error.
    pub open spec fn message(self) -> Seq<char> {
        match self {
            ConversionErrorModel::Lifecycle(e) => e.message(),
            ConversionErrorModel::TaskStore(e) => e.message(),
            ConversionErrorModel::Payload(m) => "conversion task payload is invalid: "@ + m,
            ConversionErrorModel::Conflict => "conversion task conflicts with the requested mirror range"@,
            ConversionErrorModel::StaleClaim => "conversion client does not own the task claim"@,
        }
    }
}

impl ConversionError {
    /// Text of the error.
    pub fn message(&self) -> (r: String)
        ensures
            r@ == self@.message(),
    {
        match self {
            ConversionError::Lifecycle(e) => e.message(),
            ConversionError::TaskStore(e) => e.message(),
            ConversionError::Payload(m) => {
                let mut out = text("conversion task payload is invalid: ");
                out.append(m.as_str());
                out
            },
            ConversionError::Conflict => text(
                "conversion task conflicts with the requested mirror range",
            ),
            ConversionError::StaleClaim => text("conversion client does not own the task claim"),
        }
    }
}

/// Chunks whose strips can be converted.
pub open spec fn convertible(state: ChunkState) -> bool {
    state == ChunkState::Active || state == ChunkState::Sealed
}

/// Whether strips of a chunk in this state can be converted.
pub fn convertible_chunk_state(state: ChunkState) -> (r: bool)
    ensures
        r == convertible(state),
{
    state == ChunkState::Active || state == ChunkState::Sealed
}

/// The strip holds equal copies.
pub open spec fn is_mirror(strip: StripModel) -> bool {
    strip.strip matches Some(LayoutModel::Mirror { .. })
}

/// Every strip holds equal copies.
pub open spec fn all_mirrors(strips: Seq<StripModel>) -> bool {
    forall|i: int| 0 <= i < strips.len() ==> is_mirror(#[trigger] strips[i])
}

/// Nothing is written into the strips any more.
pub open spec fn all_closed(chunk: ChunkModel, strips: Seq<StripModel>) -> bool {
    chunk.state == ChunkState::Sealed || (chunk.closed_strip_sequence is Some && forall|i: int|
        0 <= i < strips.len() ==> (#[trigger] strips[i]).strip_sequence
            <= chunk.closed_strip_sequence->0)
}

/// The chunk still holds the closed mirrors at this place.
pub open spec fn source_valid(
    chunk: ChunkModel,
    expected_modify_ts: u64,
    start: int,
    old_strips: Seq<StripModel>,
) -> bool {
    &&& convertible(chunk.state)
    &&& old_strips.len() > 0
    &&& chunk.modify_ts == expected_modify_ts
    &&& start + old_strips.len() <= chunk.strips.len()
    &&& chunk.strips.subrange(start, start + old_strips.len()) == old_strips
    &&& all_mirrors(old_strips)
    &&& all_closed(chunk, old_strips)
}

fn are_mirrors(strips: &[ChunkStrip]) -> (r: bool)
    ensures
        r == all_mirrors(strip_models(strips@)),
{
    let mut i: usize = 0;
    while i < strips.len()
        invariant
            i <= strips.len(),
            forall|j: int| 0 <= j < i ==> is_mirror((#[trigger] strips@[j])@),
        decreases strips.len() - i,
    {
        let mirror = match &strips[i].strip {
            Some(Strip::MirrorStrip(_)) => true,
            _ => false,
        };
        if !mirror {
            assert(!is_mirror(strip_models(strips@)[i as int]));
            return false;
        }
        i = i + 1;
    }
    true
}

fn are_closed(chunk: &Chunk, strips: &[ChunkStrip]) -> (r: bool)
    ensures
        r == all_closed(chunk@, strip_models(strips@)),
{
    if chunk.state == ChunkState::Sealed {
        return true;
    }
    let sequence: u32 = match chunk.closed_strip_sequence {
        Some(sequence) => sequence,
        None => {
            return false;
        },
    };
    let mut i: usize = 0;
    while i < strips.len()
        invariant
            i <= strips.len(),
            chunk.state != ChunkState::Sealed,
            chunk.closed_strip_sequence == Some(sequence),
            forall|j: int| 0 <= j < i ==> (#[trigger] strips@[j]).strip_sequence <= sequence,
        decreases strips.len() - i,
    {
        if strips[i].strip_sequence > sequence {
            assert(strip_models(strips@)[i as int].strip_sequence > sequence);
            return false;
        }
        i = i + 1;
    }
    true
}

/// Checks that the chunk still holds the closed mirrors at this place.
pub fn validate_source(
    chunk: &Chunk,
    expected_modify_ts: u64,
    start_index: u32,
    old_strips: &[ChunkStrip],
) -> (r: Result<(), ConversionError>)
    ensures
        match r {
            Ok(_) => source_valid(
                chunk@,
                expected_modify_ts,
                start_index as int,
                strip_models(old_strips@),
            ),
            Err(error) => error@ == ConversionErrorModel::Conflict && !source_valid(
                chunk@,
                expected_modify_ts,
                start_index as int,
                strip_models(old_strips@),
            ),
        },
{
    let start: usize = start_index as usize;
    if !convertible_chunk_state(chunk.state) || old_strips.len() == 0 || chunk.modify_ts
        != expected_modify_ts || !strips_at(&chunk.strips, start, old_strips) || !are_mirrors(
        old_strips,
    ) || !are_closed(chunk, old_strips) {
        return Err(ConversionError::Conflict);
    }
    Ok(())
}

/// The strip continues a run that began with `first`: same geometry, the offset
/// that follows, and at least one copy.
pub open spec fn continues_run(strips: Seq<StripModel>, i: int) -> bool {
    let first = strips[0];
    let strip = strips[i];
    &&& strip.unit_kb == first.unit_kb
    &&& strip.capacity == first.capacity
    &&& strip.chunk_offset == clip_u32(first.chunk_offset + i * first.capacity)
    &&& is_mirror(strip)
    &&& strip.mirror_segments().len() > 0
}

/// The strip was sealed long enough ago.
pub open spec fn aged(strip: StripModel, min_age_ms: u64, now_ms: u64) -> bool {
    strip.sealed_ts_ms > 0 && clip_u64(strip.sealed_ts_ms + min_age_ms) <= now_ms
}

/// The strips can become one erasure-coded strip.
pub open spec fn is_candidate(
    chunk: ChunkModel,
    strips: Seq<StripModel>,
    enforce_age: bool,
    min_age_ms: u64,
    now_ms: u64,
) -> bool {
    &&& convertible(chunk.state)
    &&& strips.len() > 0
    &&& strips[0].unit_kb > 0
    &&& strips[0].capacity > 0
    &&& forall|i: int| 0 <= i < strips.len() ==> #[trigger] continues_run(strips, i)
    &&& all_closed(chunk, strips)
    &&& enforce_age ==> forall|i: int|
        0 <= i < strips.len() ==> aged(#[trigger] strips[i], min_age_ms, now_ms)
}

fn is_run(strips: &[ChunkStrip]) -> (r: bool)
    requires
        strips@.len() > 0,
    ensures
        r == forall|i: int|
            0 <= i < strips@.len() ==> #[trigger] continues_run(strip_models(strips@), i),
{
    let ghost models = strip_models(strips@);
    let unit_kb: u32 = strips[0].unit_kb;
    let capacity: u32 = strips[0].capacity;
    let base: u32 = strips[0].chunk_offset;
    let mut expected: u32 = base;
    let mut i: usize = 0;
    assert(0 * capacity == 0) by (nonlinear_arith);
    while i < strips.len()
        invariant
            i <= strips.len(),
            strips@.len() > 0,
            models == strip_models(strips@),
            unit_kb == models[0].unit_kb,
            capacity == models[0].capacity,
            base == models[0].chunk_offset,
            expected == clip_u32(base + i * capacity),
            0 <= i * capacity,
            forall|j: int| 0 <= j < i ==> #[trigger] continues_run(models, j),
        decreases strips.len() - i,
    {
        let strip = &strips[i];
        assert(models[i as int] == strip@);
        let copies: bool = match &strip.strip {
            Some(Strip::MirrorStrip(mirror)) => mirror.segments.len() > 0,
            _ => false,
        };
        if strip.unit_kb != unit_kb || strip.capacity != capacity || strip.chunk_offset != expected
            || !copies {
            assert(!continues_run(models, i as int));
            return false;
        }
        assert((i + 1) * capacity == i * capacity + capacity) by (nonlinear_arith);
        expected = sat_add_u32(expected, strip.capacity);
        i = i + 1;
    }
    true
}

fn are_aged(strips: &[ChunkStrip], min_age_ms: u64, now_ms: u64) -> (r: bool)
    ensures
        r == forall|i: int|
            0 <= i < strips@.len() ==> aged(
                #[trigger] strip_models(strips@)[i],
                min_age_ms,
                now_ms,
            ),
{
    let mut i: usize = 0;
    while i < strips.len()
        invariant
            i <= strips.len(),
            forall|j: int| 0 <= j < i ==> aged((#[trigger] strips@[j])@, min_age_ms, now_ms),
        decreases strips.len() - i,
    {
        let sealed: u64 = strips[i].sealed_ts_ms;
        if sealed == 0 || sat_add_u64(sealed, min_age_ms) > now_ms {
            assert(!aged(strip_models(strips@)[i as int], min_age_ms, now_ms));
            return false;
        }
        i = i + 1;
    }
    true
}

/// Whether the strips can become one erasure-coded strip.
pub fn candidate_group(
    chunk: &Chunk,
    strips: &[ChunkStrip],
    enforce_age: bool,
    min_age_ms: u64,
    now_ms: u64,
) -> (r: bool)
    ensures
        r == is_candidate(chunk@, strip_models(strips@), enforce_age, min_age_ms, now_ms),
{
    if !convertible_chunk_state(chunk.state) || strips.len() == 0 {
        return false;
    }
    assert(strip_models(strips@)[0] == strips@[0]@);
    if strips[0].unit_kb == 0 || strips[0].capacity == 0 || !is_run(strips) || !are_closed(
        chunk,
        strips,
    ) {
        return false;
    }
    !enforce_age || are_aged(strips, min_age_ms, now_ms)
}

/// First place from `from` on where the chunk holds the strips.
pub open spec fn window_from(strips: Seq<StripModel>, wanted: Seq<StripModel>, from: int) -> Option<int>
    decreases strips.len() + 1 - from,
{
    if from < 0 || from + wanted.len() > strips.len() {
        None
    } else if strips.subrange(from, from + wanted.len()) == wanted {
        Some(from)
    } else {
        window_from(strips, wanted, from + 1)
    }
}

/// A place that is found is one where the chunk holds the strips.
pub proof fn lemma_window_from(strips: Seq<StripModel>, wanted: Seq<StripModel>, from: int)
    requires
        0 <= from,
    ensures
        window_from(strips, wanted, from) matches Some(at) ==> from <= at && at + wanted.len()
            <= strips.len() && strips.subrange(at, at + wanted.len()) == wanted,
    decreases strips.len() + 1 - from,
{
    if from + wanted.len() <= strips.len() && strips.subrange(from, from + wanted.len()) != wanted {
        lemma_window_from(strips, wanted, from + 1);
    }
}

/// Where the chunk holds the closed mirrors now.
pub open spec fn source_now(chunk: ChunkModel, old_strips: Seq<StripModel>) -> Option<u32> {
    if old_strips.len() == 0 {
        None
    } else {
        match window_from(chunk.strips, old_strips, 0) {
            Some(at) => if at <= u32::MAX && source_valid(chunk, chunk.modify_ts, at, old_strips) {
                Some(at as u32)
            } else {
                None
            },
            None => None,
        }
    }
}

/// Finds the closed mirrors in a chunk that changed since.
pub fn locate_source(chunk: &Chunk, old_strips: &[ChunkStrip]) -> (r: Option<u32>)
    ensures
        r == source_now(chunk@, strip_models(old_strips@)),
{
    if old_strips.len() == 0 {
        return None;
    }
    let ghost strips = chunk@.strips;
    let ghost wanted = strip_models(old_strips@);
    let n: usize = chunk.strips.len();
    let width: usize = old_strips.len();
    let mut at: usize = 0;
    while at < n && width <= n - at
        invariant
            at <= n,
            n == chunk.strips@.len(),
            width == old_strips@.len(),
            width > 0,
            strips == chunk@.strips,
            strips == strip_models(chunk.strips@),
            wanted == strip_models(old_strips@),
            window_from(strips, wanted, 0) == window_from(strips, wanted, at as int),
        decreases n - at,
    {
        if strips_at(&chunk.strips, at, old_strips) {
            if at > u32::MAX as usize {
                return None;
            }
            let start_index: u32 = at as u32;
            return match validate_source(chunk, chunk.modify_ts, start_index, old_strips) {
                Ok(_) => Some(start_index),
                Err(_) => None,
            };
        }
        at = at + 1;
    }
    None
}

/// Identity of the task that converts a run of strips with a scheme.
pub open spec fn task_id_of(first_sequence: u32, data_num: u32, code_num: u32) -> ChunkId {
    ChunkId { high: first_sequence as u64, low: ((data_num as u64) << 32u64) | (code_num as u64) }
}

/// Identity of the task that converts a run of strips with a scheme.
pub fn conversion_task_id(old_strips: &[ChunkStrip], data_num: u32, code_num: u32) -> (r: Result<
    ChunkId,
    ConversionError,
>)
    ensures
        match r {
            Ok(id) => old_strips@.len() > 0 && id == task_id_of(
                old_strips@[0].strip_sequence,
                data_num,
                code_num,
            ),
            Err(error) => old_strips@.len() == 0 && error@ == ConversionErrorModel::Conflict,
        },
{
    if old_strips.len() == 0 {
        return Err(ConversionError::Conflict);
    }
    Ok(
        ChunkId {
            high: old_strips[0].strip_sequence as u64,
            low: ((data_num as u64) << 32u64) | (code_num as u64),
        },
    )
}

/// Identity of the strip replacement that a conversion task makes.
pub open spec fn operation_id_of(chunk_id: ChunkId, task_id: ChunkId) -> ChunkId {
    ChunkId {
        high: chunk_id.high ^ rotated_left(task_id.low, 17) ^ 0x93ec_0000_0000_0001u64,
        low: chunk_id.low ^ rotated_left(task_id.high, 29) ^ 0xec93_0000_0000_0001u64,
    }
}

/// Identity of the strip replacement that a conversion task makes.
pub fn conversion_operation_id(chunk_id: ChunkId, task_id: ChunkId) -> (r: ChunkId)
    ensures
        r == operation_id_of(chunk_id, task_id),
{
    ChunkId {
        high: chunk_id.high ^ rotate_left_u64(task_id.low, 17) ^ 0x93ec_0000_0000_0001u64,
        low: chunk_id.low ^ rotate_left_u64(task_id.high, 29) ^ 0xec93_0000_0000_0001u64,
    }
}

/// Conversions of one chunk that differ in their first strip or their scheme
/// have different tasks and replace under different identities.
pub proof fn law_conversions_have_own_identity(
    chunk_id: ChunkId,
    sequence_a: u32,
    data_a: u32,
    code_a: u32,
    sequence_b: u32,
    data_b: u32,
    code_b: u32,
)
    requires
        (sequence_a, data_a, code_a) != (sequence_b, data_b, code_b),
    ensures
        task_id_of(sequence_a, data_a, code_a) != task_id_of(sequence_b, data_b, code_b),
        operation_id_of(chunk_id, task_id_of(sequence_a, data_a, code_a)) != operation_id_of(
            chunk_id,
            task_id_of(sequence_b, data_b, code_b),
        ),
{
    let low_a = ((data_a as u64) << 32u64) | (code_a as u64);
    let low_b = ((data_b as u64) << 32u64) | (code_b as u64);
    assert(low_a == low_b ==> data_a == data_b && code_a == code_b) by (bit_vector)
        requires
            low_a == ((data_a as u64) << 32u64) | (code_a as u64),
            low_b == ((data_b as u64) << 32u64) | (code_b as u64),
    ;
    let (ch, cl) = (chunk_id.high, chunk_id.low);
    let (ha, hb) = (sequence_a as u64, sequence_b as u64);
    assert(ch ^ ((low_a << 17u64) | (low_a >> 47u64)) ^ 0x93ec_0000_0000_0001u64 == ch ^ ((low_b
        << 17u64) | (low_b >> 47u64)) ^ 0x93ec_0000_0000_0001u64 ==> low_a == low_b) by (bit_vector);
    assert(cl ^ ((ha << 29u64) | (ha >> 35u64)) ^ 0xec93_0000_0000_0001u64 == cl ^ ((hb << 29u64)
        | (hb >> 35u64)) ^ 0xec93_0000_0000_0001u64 ==> ha == hb) by (bit_vector);
}

/// The checkpoint is that of the requested conversion.
pub open spec fn requested(
    payload: ConversionModel,
    chunk_id: ChunkId,
    expected_modify_ts: u64,
    start_index: u32,
    old_strips: Seq<StripModel>,
    data_num: u32,
    code_num: u32,
) -> bool {
    &&& payload.chunk_id == chunk_id
    &&& payload.expected_modify_ts == expected_modify_ts
    &&& payload.start_index == start_index
    &&& payload.old_strips == old_strips
    &&& payload.data_num == data_num
    &&& payload.code_num == code_num
}

/// Whether the checkpoint is that of the requested conversion.
pub fn matches_request(
    payload: &MirrorToEcTaskV1,
    chunk_id: ChunkId,
    expected_modify_ts: u64,
    start_index: u32,
    old_strips: &[ChunkStrip],
    data_num: u32,
    code_num: u32,
) -> (r: bool)
    ensures
        r == requested(
            payload@,
            chunk_id,
            expected_modify_ts,
            start_index,
            strip_models(old_strips@),
            data_num,
            code_num,
        ),
{
    let same_strips = payload.old_strips.len() == old_strips.len() && strips_at(
        &payload.old_strips,
        0,
        old_strips,
    );
    proof {
        let mine = strip_models(payload.old_strips@);
        assert(mine.subrange(0, mine.len() as int) =~= mine);
        if payload.old_strips@.len() != old_strips@.len() {
            assert(mine.len() != strip_models(old_strips@).len());
        }
    }
    payload.chunk_id == chunk_id && payload.expected_modify_ts == expected_modify_ts
        && payload.start_index == start_index && same_strips && payload.data_num == data_num
        && payload.code_num == code_num
}

/// Copies held by a run of mirrored strips.
pub open spec fn copies_of(strips: Seq<StripModel>) -> int
    decreases strips.len(),
{
    if strips.len() == 0 {
        0
    } else {
        copies_of(strips.drop_last()) + strips.last().mirror_segments().len()
    }
}

proof fn lemma_copies_of_prefix(strips: Seq<StripModel>, n: int)
    requires
        0 <= n <= strips.len(),
    ensures
        0 <= copies_of(strips.take(n)) <= copies_of(strips),
    decreases strips.len() - n,
{
    lemma_copies_nonnegative(strips.take(n));
    if n < strips.len() {
        lemma_copies_of_prefix(strips, n + 1);
        assert(strips.take(n + 1).drop_last() =~= strips.take(n));
        assert(strips.take(n + 1).last() == strips[n]);
    } else {
        assert(strips.take(n) =~= strips);
    }
}

proof fn lemma_copies_nonnegative(strips: Seq<StripModel>)
    ensures
        copies_of(strips) >= 0,
    decreases strips.len(),
{
    if strips.len() > 0 {
        lemma_copies_nonnegative(strips.drop_last());
    }
}

/// What a conversion moves.
#[derive(Debug, Clone, Copy, PartialEq, Eq, Structural)]
pub struct ConversionIo {
    pub read_bytes: u64,
    pub write_bytes: u64,
    pub retired_segments: u64,
}

/// What a conversion moves: each source strip is read once, every shard of the
/// size of the first strip is written, and all copies of the sources retire.
pub open spec fn io_of(payload: ConversionModel) -> ConversionIo {
    ConversionIo {
        read_bytes: (total_capacity(payload.old_strips) * 1024) as u64,
        write_bytes: if payload.old_strips.len() == 0 {
            0
        } else {
            clip_u64(
                payload.old_strips[0].capacity * 1024 * clip_u32(
                    payload.data_num + payload.code_num,
                ),
            )
        },
        retired_segments: copies_of(payload.old_strips) as u64,
    }
}

/// The amounts of a conversion can be counted.
pub open spec fn countable(strips: Seq<StripModel>) -> bool {
    total_capacity(strips) * 1024 <= u64::MAX && copies_of(strips) <= u64::MAX
}

/// Whether the amounts of a conversion can be counted.
pub fn is_countable(strips: &[ChunkStrip]) -> (r: bool)
    ensures
        r == countable(strip_models(strips@)),
{
    let ghost models = strip_models(strips@);
    let mut bytes: u64 = 0;
    let mut copies: u64 = 0;
    let mut i: usize = 0;
    while i < strips.len()
        invariant
            i <= strips.len(),
            models == strip_models(strips@),
            bytes == total_capacity(models.take(i as int)) * 1024,
            copies == copies_of(models.take(i as int)),
        decreases strips.len() - i,
    {
        proof {
            assert(models.take(i + 1).drop_last() =~= models.take(i as int));
            assert(models.take(i + 1).last() == strips@[i as int]@);
            lemma_capacity_of_prefix(models, i + 1);
            lemma_copies_of_prefix(models, i + 1);
        }
        let more: u64 = strips[i].capacity as u64 * 1024;
        let n: u64 = mirror_count(&strips[i]);
        if more > u64::MAX - bytes || n > u64::MAX - copies {
            return false;
        }
        bytes = bytes + more;
        copies = copies + n;
        i = i + 1;
    }
    assert(models.take(i as int) =~= models);
    true
}

fn mirror_count(strip: &ChunkStrip) -> (r: u64)
    ensures
        r == strip@.mirror_segments().len(),
{
    match &strip.strip {
        Some(Strip::MirrorStrip(mirror)) => mirror.segments.len() as u64,
        _ => 0,
    }
}

/// Bytes held by a run of strips.
pub fn strip_bytes(strips: &[ChunkStrip]) -> (r: u64)
    requires
        total_capacity(strip_models(strips@)) * 1024 <= u64::MAX,
    ensures
        r == total_capacity(strip_models(strips@)) * 1024,
{
    let ghost models = strip_models(strips@);
    let mut bytes: u64 = 0;
    let mut i: usize = 0;
    while i < strips.len()
        invariant
            i <= strips.len(),
            models == strip_models(strips@),
            total_capacity(models) * 1024 <= u64::MAX,
            bytes == total_capacity(models.take(i as int)) * 1024,
        decreases strips.len() - i,
    {
        proof {
            assert(models.take(i + 1).drop_last() =~= models.take(i as int));
            assert(models.take(i + 1).last() == strips@[i as int]@);
            lemma_capacity_of_prefix(models, i + 1);
        }
        bytes = bytes + strips[i].capacity as u64 * 1024;
        i = i + 1;
    }
    assert(models.take(i as int) =~= models);
    bytes
}

/// What a conversion moves.
pub fn io_accounting(payload: &MirrorToEcTaskV1) -> (r: ConversionIo)
    requires
        countable(payload@.old_strips),
    ensures
        r == io_of(payload@),
{
    let ghost models = payload@.old_strips;
    let strips = &payload.old_strips;
    let read_bytes: u64 = strip_bytes(strips);
    let mut copies: u64 = 0;
    let mut i: usize = 0;
    while i < strips.len()
        invariant
            i <= strips.len(),
            models == strip_models(strips@),
            copies_of(models) <= u64::MAX,
            copies == copies_of(models.take(i as int)),
        decreases strips.len() - i,
    {
        proof {
            assert(models.take(i + 1).drop_last() =~= models.take(i as int));
            assert(models.take(i + 1).last() == strips@[i as int]@);
            lemma_copies_of_prefix(models, i + 1);
        }
        copies = copies + mirror_count(&strips[i]);
        i = i + 1;
    }
    assert(models.take(i as int) =~= models);
    let write_bytes: u64 = if strips.len() == 0 {
        0
    } else {
        assert(models[0] == strips@[0]@);
        sat_mul_u64(
            strips[0].capacity as u64 * 1024,
            sat_add_u32(payload.data_num, payload.code_num) as u64,
        )
    };
    ConversionIo { read_bytes, write_bytes, retired_segments: copies }
}

/// A group that is a candidate stands where it was found: converting it there
/// is not refused.
pub proof fn law_candidate_is_valid_source(
    chunk: ChunkModel,
    start: int,
    width: int,
    enforce_age: bool,
    min_age_ms: u64,
    now_ms: u64,
)
    requires
        0 <= start,
        0 < width,
        start + width <= chunk.strips.len(),
        is_candidate(
            chunk,
            chunk.strips.subrange(start, start + width),
            enforce_age,
            min_age_ms,
            now_ms,
        ),
    ensures
        source_valid(chunk, chunk.modify_ts, start, chunk.strips.subrange(start, start + width)),
{
    let strips = chunk.strips.subrange(start, start + width);
    assert forall|i: int| 0 <= i < strips.len() implies is_mirror(#[trigger] strips[i]) by {
        assert(continues_run(strips, i));
    }
}

} // verus!
