//! Fenced replacement of a strip range.
use vstd::prelude::*;
use crate::arith::{clip_u32, sat_mul_u32, sat_add_u32};
use crate::lifecycle::error::{invalid_request, LifecycleError, LifecycleErrorModel};
use crate::types::{
    all_segments, contains_segment, extract_all_segments, strip_models, sum_capacity,
    total_capacity, Chunk, ChunkId, ChunkModel, ChunkStrip, LayoutModel, Segment, Strip, StripModel,
};

verus! {

/// A strip that takes the place of another.
#[derive(Debug)]
pub struct StripExchange {
    pub chunk_id: ChunkId,
    pub modify_ts: u64,
    pub index: u32,
    pub old_strip: ChunkStrip,
    pub new_strip: ChunkStrip,
    pub operation_id: ChunkId,
}

/// Model of an exchange.
pub struct ExchangeModel {
    pub chunk_id: ChunkId,
    pub modify_ts: u64,
    pub index: u32,
    pub old_strip: StripModel,
    pub new_strip: StripModel,
    pub operation_id: ChunkId,
}

impl View for StripExchange {
    type V = ExchangeModel;

    open spec fn view(&self) -> ExchangeModel {
        ExchangeModel {
            chunk_id: self.chunk_id,
            modify_ts: self.modify_ts,
            index: self.index,
            old_strip: self.old_strip@,
            new_strip: self.new_strip@,
            operation_id: self.operation_id,
        }
    }
}

/// The segments of `a` that are not in `b`, each once, in order of their first
/// occurrence.
pub open spec fn distinct_without(a: Seq<Segment>, b: Seq<Segment>) -> Seq<Segment>
    decreases a.len(),
{
    if a.len() == 0 {
        Seq::empty()
    } else {
        let front = distinct_without(a.drop_last(), b);
        if b.contains(a.last()) || front.contains(a.last()) {
            front
        } else {
            front.push(a.last())
        }
    }
}

/// The difference holds exactly the segments of `a` outside `b`, each once.
pub proof fn lemma_distinct_without(a: Seq<Segment>, b: Seq<Segment>)
    ensures
        distinct_without(a, b).no_duplicates(),
        forall|s: Segment| #[trigger]
            distinct_without(a, b).contains(s) <==> a.contains(s) && !b.contains(s),
    decreases a.len(),
{
    if a.len() > 0 {
        let front = distinct_without(a.drop_last(), b);
        let r = distinct_without(a, b);
        lemma_distinct_without(a.drop_last(), b);
        assert forall|s: Segment| #[trigger] r.contains(s) <==> a.contains(s) && !b.contains(s) by {
            assert(a[a.len() - 1] == a.last());
            if a.contains(s) {
                let k = choose|k: int| 0 <= k < a.len() && a[k] == s;
                if k < a.len() - 1 {
                    assert(a.drop_last()[k] == s);
                }
            }
            if a.drop_last().contains(s) {
                let k = choose|k: int| 0 <= k < a.drop_last().len() && a.drop_last()[k] == s;
                assert(a[k] == s);
            }
            if front.contains(s) && r.len() > front.len() {
                let k = choose|k: int| 0 <= k < front.len() && front[k] == s;
                assert(r[k] == s);
            }
            if r.len() > front.len() {
                assert(r[front.len() as int] == a.last());
            }
        }
    }
}

/// Computes the segments of `a` that are not in `b`.
pub fn segments_without(a: &[Segment], b: &[Segment]) -> (r: Vec<Segment>)
    ensures
        r@ == distinct_without(a@, b@),
{
    let mut out: Vec<Segment> = Vec::new();
    let mut i: usize = 0;
    while i < a.len()
        invariant
            i <= a.len(),
            out@ == distinct_without(a@.take(i as int), b@),
        decreases a.len() - i,
    {
        assert(a@.take(i + 1).drop_last() =~= a@.take(i as int));
        let segment = a[i];
        if !contains_segment(b, &segment) && !contains_segment(&out, &segment) {
            out.push(segment);
        }
        i = i + 1;
    }
    assert(a@.take(i as int) =~= a@);
    out
}

/// The segment is owned by the chunk and not empty.
pub open spec fn owned_segment(segment: Segment, chunk_id: ChunkId) -> bool {
    segment.owner_chunk == Some(chunk_id) && segment.unit_count != 0
}

/// The strip's layout fits its capacity: every copy of a mirror holds all of it,
/// every shard of an erasure-coded strip one data-th part.
pub open spec fn valid_shape(strip: StripModel) -> bool {
    match strip.strip {
        Some(LayoutModel::Mirror { segments }) => segments.len() > 0 && forall|i: int|
            0 <= i < segments.len() ==> clip_u32((#[trigger] segments[i]).unit_count * strip.unit_kb)
                == strip.capacity,
        Some(LayoutModel::Ec { data_num, code_num, segments, .. }) => data_num > 0 && code_num > 0
            && segments.len() == clip_u32(data_num + code_num) && forall|i: int|
            0 <= i < segments.len() ==> clip_u32(
                clip_u32((#[trigger] segments[i]).unit_count * strip.unit_kb) * data_num,
            ) == strip.capacity,
        None => false,
    }
}

/// What is wrong with one strip of a replacement, given the offset at which it
/// has to begin.
pub open spec fn strip_fault(strip: StripModel, expected_offset: u32) -> Option<Seq<char>> {
    if strip.capacity == 0 || strip.unit_kb == 0 || strip.chunk_offset != expected_offset {
        Some("replacement strips must be non-empty and contiguous"@)
    } else if expected_offset + strip.capacity > u32::MAX {
        Some("replacement strip range overflows u32"@)
    } else if !valid_shape(strip) {
        Some("replacement strip has invalid mirror or EC geometry"@)
    } else if !(forall|i: int|
        0 <= i < strip.unavailable_segments.len() ==> strip.segments().contains(
            #[trigger] strip.unavailable_segments[i],
        )) {
        Some("unavailable replicas must belong to the replacement strip"@)
    } else {
        None
    }
}

/// The first fault of the strips from `from` on.
pub open spec fn first_strip_fault(strips: Seq<StripModel>, from: int, expected_offset: u32) -> Option<
    Seq<char>,
>
    decreases strips.len() - from,
{
    if from >= strips.len() {
        None
    } else {
        match strip_fault(strips[from], expected_offset) {
            Some(fault) => Some(fault),
            None => first_strip_fault(
                strips,
                from + 1,
                (expected_offset + strips[from].capacity) as u32,
            ),
        }
    }
}

/// What is wrong with the geometry of a replacement.
pub open spec fn geometry_fault(
    old_strips: Seq<StripModel>,
    replacement: Seq<StripModel>,
    chunk_id: ChunkId,
) -> Option<Seq<char>> {
    if total_capacity(old_strips) != total_capacity(replacement) || old_strips[0].chunk_offset
        != replacement[0].chunk_offset || old_strips[0].strip_sequence
        != replacement[0].strip_sequence {
        Some("replacement must preserve first offset, first sequence, and total capacity"@)
    } else if !(forall|i: int|
        0 <= i < all_segments(replacement).len() ==> owned_segment(
            #[trigger] all_segments(replacement)[i],
            chunk_id,
        )) {
        Some("replacement segments must be non-empty and owned by the chunk"@)
    } else {
        first_strip_fault(replacement, 0, replacement[0].chunk_offset)
    }
}

fn all_owned(segments: &[Segment], chunk_id: &ChunkId) -> (r: bool)
    ensures
        r == (forall|i: int|
            0 <= i < segments@.len() ==> owned_segment(#[trigger] segments@[i], *chunk_id)),
{
    let mut i: usize = 0;
    while i < segments.len()
        invariant
            i <= segments.len(),
            forall|j: int| 0 <= j < i ==> owned_segment(#[trigger] segments@[j], *chunk_id),
        decreases segments.len() - i,
    {
        if segments[i].owner_chunk != Some(*chunk_id) || segments[i].unit_count == 0 {
            assert(!owned_segment(segments@[i as int], *chunk_id));
            return false;
        }
        i = i + 1;
    }
    true
}

fn mirror_fits(segments: &[Segment], unit_kb: u32, capacity: u32) -> (r: bool)
    ensures
        r == (segments@.len() > 0 && forall|i: int|
            0 <= i < segments@.len() ==> clip_u32((#[trigger] segments@[i]).unit_count * unit_kb)
                == capacity),
{
    if segments.len() == 0 {
        return false;
    }
    let mut i: usize = 0;
    while i < segments.len()
        invariant
            i <= segments.len(),
            forall|j: int|
                0 <= j < i ==> clip_u32((#[trigger] segments@[j]).unit_count * unit_kb) == capacity,
        decreases segments.len() - i,
    {
        if sat_mul_u32(segments[i].unit_count, unit_kb) != capacity {
            assert(clip_u32(segments@[i as int].unit_count * unit_kb) != capacity);
            return false;
        }
        i = i + 1;
    }
    true
}

fn shards_fit(segments: &[Segment], unit_kb: u32, data_num: u32, capacity: u32) -> (r: bool)
    ensures
        r == (forall|i: int|
            0 <= i < segments@.len() ==> clip_u32(
                clip_u32((#[trigger] segments@[i]).unit_count * unit_kb) * data_num,
            ) == capacity),
{
    let mut i: usize = 0;
    while i < segments.len()
        invariant
            i <= segments.len(),
            forall|j: int|
                0 <= j < i ==> clip_u32(
                    clip_u32((#[trigger] segments@[j]).unit_count * unit_kb) * data_num,
                ) == capacity,
        decreases segments.len() - i,
    {
        if sat_mul_u32(sat_mul_u32(segments[i].unit_count, unit_kb), data_num) != capacity {
            assert(clip_u32(clip_u32(segments@[i as int].unit_count * unit_kb) * data_num)
                != capacity);
            return false;
        }
        i = i + 1;
    }
    true
}

fn has_valid_shape(strip: &ChunkStrip) -> (r: bool)
    ensures
        r == valid_shape(strip@),
{
    match &strip.strip {
        Some(Strip::MirrorStrip(mirror)) => mirror_fits(
            &mirror.segments,
            strip.unit_kb,
            strip.capacity,
        ),
        Some(Strip::EcStrip(ec)) => ec.data_num > 0 && ec.code_num > 0 && ec.segments.len()
            == sat_add_u32(ec.data_num, ec.code_num) as usize && shards_fit(
            &ec.segments,
            strip.unit_kb,
            ec.data_num,
            strip.capacity,
        ),
        None => false,
    }
}

fn unavailable_belong(strip: &ChunkStrip) -> (r: bool)
    ensures
        r == (forall|i: int|
            0 <= i < strip@.unavailable_segments.len() ==> strip@.segments().contains(
                #[trigger] strip@.unavailable_segments[i],
            )),
{
    let segments = strip.extract_segments();
    let mut i: usize = 0;
    while i < strip.unavailable_segments.len()
        invariant
            i <= strip.unavailable_segments.len(),
            segments@ == strip@.segments(),
            forall|j: int|
                0 <= j < i ==> segments@.contains(#[trigger] strip@.unavailable_segments[j]),
        decreases strip.unavailable_segments.len() - i,
    {
        if !contains_segment(&segments, &strip.unavailable_segments[i]) {
            assert(!segments@.contains(strip@.unavailable_segments[i as int]));
            return false;
        }
        i = i + 1;
    }
    true
}

/// Checks that a replacement covers the same range with owned, well-shaped
/// strips.
pub fn validate_replacement_geometry(
    old_strips: &[ChunkStrip],
    replacement: &[ChunkStrip],
    chunk_id: &ChunkId,
) -> (r: Result<(), LifecycleError>)
    requires
        old_strips@.len() > 0,
        replacement@.len() > 0,
        total_capacity(strip_models(old_strips@)) <= u32::MAX,
        total_capacity(strip_models(replacement@)) <= u32::MAX,
    ensures
        match geometry_fault(strip_models(old_strips@), strip_models(replacement@), *chunk_id) {
            Some(fault) => r matches Err(e) && e@ == LifecycleErrorModel::InvalidRequest(fault),
            None => r is Ok,
        },
{
    let old_capacity: u32 = sum_capacity(old_strips);
    let new_capacity: u32 = sum_capacity(replacement);
    if old_capacity != new_capacity || old_strips[0].chunk_offset != replacement[0].chunk_offset
        || old_strips[0].strip_sequence != replacement[0].strip_sequence {
        return Err(
            invalid_request(
                "replacement must preserve first offset, first sequence, and total capacity",
            ),
        );
    }
    let segments = extract_all_segments(replacement);
    if !all_owned(&segments, chunk_id) {
        return Err(
            invalid_request("replacement segments must be non-empty and owned by the chunk"),
        );
    }
    let ghost models = strip_models(replacement@);
    let mut expected_offset: u32 = replacement[0].chunk_offset;
    let mut i: usize = 0;
    while i < replacement.len()
        invariant
            i <= replacement.len(),
            models == strip_models(replacement@),
            models.len() > 0,
            geometry_fault(strip_models(old_strips@), models, *chunk_id) == first_strip_fault(
                models,
                i as int,
                expected_offset,
            ),
        decreases replacement.len() - i,
    {
        let strip = &replacement[i];
        assert(models[i as int] == strip@);
        if strip.capacity == 0 || strip.unit_kb == 0 || strip.chunk_offset != expected_offset {
            return Err(invalid_request("replacement strips must be non-empty and contiguous"));
        }
        if strip.capacity > u32::MAX - expected_offset {
            return Err(invalid_request("replacement strip range overflows u32"));
        }
        let next_offset: u32 = expected_offset + strip.capacity;
        if !has_valid_shape(strip) {
            return Err(invalid_request("replacement strip has invalid mirror or EC geometry"));
        }
        if !unavailable_belong(strip) {
            return Err(
                invalid_request("unavailable replicas must belong to the replacement strip"),
            );
        }
        expected_offset = next_offset;
        i = i + 1;
    }
    Ok(())
}

/// A strip outside `start..end` has the sequence.
pub open spec fn retained_sequence(strips: Seq<StripModel>, start: int, end: int, sequence: u32) -> bool {
    exists|i: int|
        0 <= i < strips.len() && !(start <= i < end) && (#[trigger] strips[i]).strip_sequence
            == sequence
}

/// The sequence of strip `i` is newly allocated and above the one before.
pub open spec fn new_sequence(next: u32, strips: Seq<StripModel>, i: int) -> bool {
    strips[i].strip_sequence >= next && strips[i].strip_sequence > strips[i - 1].strip_sequence
}

/// The sequences of a replacement are used nowhere else; all but the first are
/// newly allocated and ascending.
pub open spec fn valid_sequences(
    chunk: ChunkModel,
    start: int,
    end: int,
    replacement: Seq<StripModel>,
) -> bool {
    &&& forall|i: int|
        0 <= i < replacement.len() ==> !retained_sequence(
            chunk.strips,
            start,
            end,
            (#[trigger] replacement[i]).strip_sequence,
        )
    &&& forall|i: int|
        0 < i < replacement.len() ==> #[trigger] new_sequence(chunk.next_strip_sequence, replacement, i)
}

/// The next free sequence after a replacement, or what is wrong with its
/// sequences.
pub open spec fn sequences_after(
    chunk: ChunkModel,
    start: int,
    end: int,
    replacement: Seq<StripModel>,
) -> Result<u32, Seq<char>> {
    if !valid_sequences(chunk, start, end, replacement) {
        Err("replacement strip sequences must be unique and newly allocated after the first"@)
    } else if replacement.len() <= 1 {
        Ok(chunk.next_strip_sequence)
    } else if replacement.last().strip_sequence == u32::MAX {
        Err("replacement strip sequence space exhausted"@)
    } else {
        Ok((replacement.last().strip_sequence + 1) as u32)
    }
}

fn is_retained(strips: &[ChunkStrip], start: usize, end: usize, sequence: u32) -> (r: bool)
    ensures
        r == retained_sequence(strip_models(strips@), start as int, end as int, sequence),
{
    let ghost models = strip_models(strips@);
    let mut i: usize = 0;
    while i < strips.len()
        invariant
            i <= strips.len(),
            models == strip_models(strips@),
            forall|j: int|
                0 <= j < i && !(start <= j < end) ==> (#[trigger] models[j]).strip_sequence != sequence,
        decreases strips.len() - i,
    {
        assert(models[i as int] == strips@[i as int]@);
        if !(start <= i && i < end) && strips[i].strip_sequence == sequence {
            return true;
        }
        i = i + 1;
    }
    false
}

/// Checks the sequences of a replacement and gives the next free one.
pub fn validate_replacement_sequences(
    chunk: &Chunk,
    start: usize,
    end: usize,
    replacement: &[ChunkStrip],
) -> (r: Result<u32, LifecycleError>)
    requires
        replacement@.len() > 0,
    ensures
        match sequences_after(chunk@, start as int, end as int, strip_models(replacement@)) {
            Ok(next) => r == Ok::<u32, LifecycleError>(next),
            Err(fault) => r matches Err(e) && e@ == LifecycleErrorModel::InvalidRequest(fault),
        },
{
    let ghost models = strip_models(replacement@);
    let mut i: usize = 0;
    while i < replacement.len()
        invariant
            i <= replacement.len(),
            models == strip_models(replacement@),
            forall|j: int|
                0 <= j < i ==> !retained_sequence(
                    chunk@.strips,
                    start as int,
                    end as int,
                    (#[trigger] models[j]).strip_sequence,
                ),
            forall|j: int|
                0 < j < i ==> #[trigger] new_sequence(chunk.next_strip_sequence, models, j),
        decreases replacement.len() - i,
    {
        assert(models[i as int] == replacement@[i as int]@);
        let sequence: u32 = replacement[i].strip_sequence;
        let mut invalid = is_retained(&chunk.strips, start, end, sequence);
        if i > 0 {
            assert(models[i - 1] == replacement@[i - 1]@);
            if sequence < chunk.next_strip_sequence || sequence <= replacement[i - 1].strip_sequence {
                invalid = true;
            }
        }
        if invalid {
            proof {
                if valid_sequences(chunk@, start as int, end as int, models) && i > 0 {
                    assert(new_sequence(chunk@.next_strip_sequence, models, i as int));
                }
            }
            return Err(
                invalid_request(
                    "replacement strip sequences must be unique and newly allocated after the first",
                ),
            );
        }
        i = i + 1;
    }
    let n: usize = replacement.len();
    if n <= 1 {
        return Ok(chunk.next_strip_sequence);
    }
    assert(models.last() == replacement@[n - 1]@);
    let last: u32 = replacement[n - 1].strip_sequence;
    if last == u32::MAX {
        return Err(invalid_request("replacement strip sequence space exhausted"));
    }
    Ok(last + 1)
}

} // verus!
