//! Finalization of abandoned chunks: waiting for late writes, finding the last
//! complete frame, and planning the reads for that.
use vstd::prelude::*;
use crate::arith::{clip_u32, clip_u64, div_ceil_u64, min_u64, sat_add_u64, sat_mul_u64};
use crate::task::executor::{OutcomeModel, TaskOutcome};
use crate::text::{decimal, text, text_number, text_number_text};
use crate::types::{
    contains_segment, strip_models, Chunk, ChunkState, ChunkStrip, LayoutModel, Segment, Strip,
    StripModel,
};

verus! {

/// Pause before a finalization is tried again.
pub const FINALIZE_RETRY_MS: u64 = 1_000;

/// How long writes of an expired writer may still arrive.
#[derive(Debug, Clone, Copy, PartialEq, Eq, Structural)]
pub struct FinalizeTimings {
    pub max_write_request_age_ms: u64,
    pub max_clock_skew_ms: u64,
    pub scanner_margin_ms: u64,
}

/// When no write of the expired writer can arrive any more.
pub open spec fn safe_at(eligible_at_ms: u64, timings: FinalizeTimings) -> u64 {
    clip_u64(
        eligible_at_ms + timings.max_write_request_age_ms + timings.max_clock_skew_ms
            + timings.scanner_margin_ms,
    )
}

/// The outcome while late writes may still arrive; none once they cannot.
pub fn wait_for_writes(eligible_at_ms: u64, timings: FinalizeTimings, now_ms: u64) -> (r: Option<
    TaskOutcome,
>)
    ensures
        match r {
            Some(outcome) => now_ms < safe_at(eligible_at_ms, timings) && outcome@ == (
            OutcomeModel::Retry {
                delay_ms: (safe_at(eligible_at_ms, timings) - now_ms) as u64,
                error_code: 0,
                error: "waiting for pre-expiry writes to age out"@,
            }),
            None => now_ms >= safe_at(eligible_at_ms, timings),
        },
{
    let at: u64 = sat_add_u64(
        sat_add_u64(
            sat_add_u64(eligible_at_ms, timings.max_write_request_age_ms),
            timings.max_clock_skew_ms,
        ),
        timings.scanner_margin_ms,
    );
    if now_ms < at {
        return Some(
            TaskOutcome::Retry {
                delay_ms: at - now_ms,
                error_code: 0,
                error: text("waiting for pre-expiry writes to age out"),
            },
        );
    }
    None
}

/// Whether a chunk is final already.
pub fn is_final(state: ChunkState) -> (r: bool)
    ensures
        r == (state == ChunkState::Deleted || state == ChunkState::Sealed),
{
    state == ChunkState::Deleted || state == ChunkState::Sealed
}

/// How a chunk is finalized.
#[derive(Debug, Clone, Copy, PartialEq, Eq, Structural)]
pub enum Finalization {
    /// It holds no complete frame.
    Delete,
    /// Seal it at this length, in KiB.
    Seal(u32),
}

/// How a chunk is finalized whose complete frames end at `boundary`.
pub open spec fn finalization_of(boundary: u64) -> Finalization {
    if boundary == 0 {
        Finalization::Delete
    } else {
        Finalization::Seal(clip_u32((boundary + 1023) / 1024))
    }
}

/// Decides how a chunk is finalized whose complete frames end at `boundary`.
pub fn finalize_at(boundary: u64) -> (r: Finalization)
    ensures
        r == finalization_of(boundary),
{
    if boundary == 0 {
        return Finalization::Delete;
    }
    let length: u64 = div_ceil_u64(boundary, 1024);
    if length > u32::MAX as u64 {
        Finalization::Seal(u32::MAX)
    } else {
        Finalization::Seal(length as u32)
    }
}

/// A sealed chunk covers every byte of its complete frames, and less than one
/// KiB more, where its length can be told.
pub proof fn law_seal_covers_frames(boundary: u64)
    requires
        boundary <= u32::MAX * 1024,
    ensures
        finalization_of(boundary) matches Finalization::Seal(length) ==> boundary <= length * 1024
            < boundary + 1024,
        finalization_of(boundary) is Delete <==> boundary == 0,
{
}

/// The step of a finalization that failed.
#[derive(Debug, Clone, Copy, PartialEq, Eq, Structural)]
pub enum FailedStep {
    Query,
    Delete,
    Scan,
    Seal,
}

/// The code of a failed step.
pub open spec fn failure_code(step: FailedStep) -> u16 {
    match step {
        FailedStep::Query => 1,
        FailedStep::Delete => 2,
        FailedStep::Scan => 3,
        FailedStep::Seal => 4,
    }
}

/// How a task ends whose step failed.
pub fn failed(step: FailedStep, error: String) -> (r: TaskOutcome)
    ensures
        r@ == (OutcomeModel::Retry {
            delay_ms: FINALIZE_RETRY_MS,
            error_code: failure_code(step),
            error: error@,
        }),
{
    let error_code: u16 = match step {
        FailedStep::Query => 1,
        FailedStep::Delete => 2,
        FailedStep::Scan => 3,
        FailedStep::Seal => 4,
    };
    TaskOutcome::Retry { delay_ms: FINALIZE_RETRY_MS, error_code, error }
}

/// What a scan for the last complete frame came upon.
#[derive(Debug, Clone, Copy, PartialEq, Eq, Structural)]
pub enum ScanEvent {
    /// A header that names the length of its frame.
    Header { frame_length: u64 },
    /// No header can be read at this place.
    NoHeader,
    /// The frame is complete.
    FrameComplete,
    /// The frame is not complete.
    FrameBroken,
}

/// What a scan does next.
#[derive(Debug, Clone, Copy, PartialEq, Eq, Structural)]
pub enum ScanAction {
    ReadHeader { offset: u64 },
    ReadFrame { offset: u64, length: u64 },
    /// The complete frames end here.
    Done { boundary: u64 },
}

/// A scan for the last complete frame: where the frame begins that is looked at,
/// and its length once that is known.
#[derive(Debug, Clone, Copy, PartialEq, Eq, Structural)]
pub struct FrameScan {
    pub cursor: u64,
    pub frame_length: Option<u64>,
}

impl FrameScan {
    /// A scan from the start of a chunk, and its first action.
    pub fn new() -> (r: (FrameScan, ScanAction))
        ensures
            r.0 == (FrameScan { cursor: 0, frame_length: None }),
            r.1 == (ScanAction::ReadHeader { offset: 0 }),
    {
        (FrameScan { cursor: 0, frame_length: None }, ScanAction::ReadHeader { offset: 0 })
    }

    /// The next action of the scan.
    pub fn step(&mut self, event: ScanEvent) -> (r: ScanAction)
        ensures
            match event {
                ScanEvent::Header { frame_length } => r == (ScanAction::ReadFrame {
                    offset: old(self).cursor,
                    length: frame_length,
                }) && *final(self) == (FrameScan {
                    cursor: old(self).cursor,
                    frame_length: Some(frame_length),
                }),
                ScanEvent::FrameComplete => *final(self) == (FrameScan {
                    cursor: match old(self).frame_length {
                        Some(length) => clip_u64(old(self).cursor + length),
                        None => old(self).cursor,
                    },
                    frame_length: None,
                }) && r == (ScanAction::ReadHeader { offset: final(self).cursor }),
                ScanEvent::NoHeader | ScanEvent::FrameBroken => r == (ScanAction::Done {
                    boundary: old(self).cursor,
                }) && *final(self) == *old(self),
            },
    {
        match event {
            ScanEvent::Header { frame_length } => {
                self.frame_length = Some(frame_length);
                ScanAction::ReadFrame { offset: self.cursor, length: frame_length }
            },
            ScanEvent::FrameComplete => {
                match self.frame_length {
                    Some(length) => {
                        self.cursor = sat_add_u64(self.cursor, length);
                    },
                    None => {},
                }
                self.frame_length = None;
                ScanAction::ReadHeader { offset: self.cursor }
            },
            ScanEvent::NoHeader | ScanEvent::FrameBroken => ScanAction::Done { boundary: self.cursor },
        }
    }
}

/// First byte of a strip within its chunk.
pub open spec fn strip_start(strip: StripModel) -> int {
    strip.chunk_offset * 1024
}

/// First byte behind a strip.
pub open spec fn strip_end(strip: StripModel) -> int {
    strip.chunk_offset * 1024 + strip.capacity * 1024
}

/// The byte lies in the strip.
pub open spec fn holds_byte(strip: StripModel, offset: int) -> bool {
    strip_start(strip) <= offset < strip_end(strip)
}

/// Whether a byte of the chunk lies in the strip.
pub fn strip_contains(strip: &ChunkStrip, offset: u64) -> (r: bool)
    ensures
        r == holds_byte(strip@, offset as int),
{
    let start: u64 = strip.chunk_offset as u64 * 1024;
    let end: u64 = start + strip.capacity as u64 * 1024;
    start <= offset && offset < end
}

/// First strip from `from` on that holds the byte.
pub open spec fn byte_holder(strips: Seq<StripModel>, offset: int, from: int) -> Option<int>
    decreases strips.len() - from,
{
    if from < 0 || from >= strips.len() {
        None
    } else if holds_byte(strips[from], offset) {
        Some(from)
    } else {
        byte_holder(strips, offset, from + 1)
    }
}

proof fn lemma_byte_holder(strips: Seq<StripModel>, offset: int, from: int)
    requires
        0 <= from,
    ensures
        byte_holder(strips, offset, from) matches Some(i) ==> from <= i < strips.len() && holds_byte(
            strips[i],
            offset,
        ),
    decreases strips.len() - from,
{
    if from < strips.len() && !holds_byte(strips[from], offset) {
        lemma_byte_holder(strips, offset, from + 1);
    }
}

fn find_holder(strips: &[ChunkStrip], offset: u64) -> (r: Option<usize>)
    ensures
        (match r {
            Some(i) => Some(i as int),
            None => None,
        }) == byte_holder(strip_models(strips@), offset as int, 0),
        r matches Some(i) ==> i < strips@.len() && holds_byte(strips@[i as int]@, offset as int),
{
    let ghost models = strip_models(strips@);
    let mut i: usize = 0;
    while i < strips.len()
        invariant
            i <= strips.len(),
            models == strip_models(strips@),
            byte_holder(models, offset as int, 0) == byte_holder(models, offset as int, i as int),
        decreases strips.len() - i,
    {
        assert(models[i as int] == strips@[i as int]@);
        if strip_contains(&strips[i], offset) {
            return Some(i);
        }
        i = i + 1;
    }
    None
}

/// A part of a chunk range that lies in one strip.
#[derive(Debug, Clone, Copy, PartialEq, Eq, Structural)]
pub struct StripPiece {
    pub strip_index: usize,
    /// Offset within the strip.
    pub offset: u64,
    pub length: u64,
}

/// Bytes of a strip from `cursor` on, as far as the range goes.
pub open spec fn piece_length(strip: StripModel, cursor: int, end: int) -> int {
    (if end < strip_end(strip) {
        end
    } else {
        strip_end(strip)
    }) - cursor
}

/// `head` in front of the pieces.
pub open spec fn after_pieces<T>(head: Seq<T>, rest: Result<Seq<T>, Seq<char>>) -> Result<
    Seq<T>,
    Seq<char>,
> {
    match rest {
        Ok(tail) => Ok(head + tail),
        Err(error) => Err(error),
    }
}

/// The parts of the chunk's bytes from `cursor` to `end`.
pub open spec fn pieces_of(strips: Seq<StripModel>, cursor: int, end: int) -> Result<
    Seq<StripPiece>,
    Seq<char>,
>
    decreases end - cursor,
{
    if cursor >= end {
        Ok(Seq::empty())
    } else {
        match byte_holder(strips, cursor, 0) {
            None => Err("chunk layout ends before frame"@),
            Some(i) => {
                let length = piece_length(strips[i], cursor, end);
                if length <= 0 {
                    Err("chunk layout ends before frame"@)
                } else {
                    after_pieces(
                        seq![
                            StripPiece {
                                strip_index: i as usize,
                                offset: (cursor - strip_start(strips[i])) as u64,
                                length: length as u64,
                            },
                        ],
                        pieces_of(strips, cursor + length, end),
                    )
                }
            },
        }
    }
}

/// The part of a chunk range that begins at `cursor`.
pub open spec fn next_piece_of(strips: Seq<StripModel>, cursor: int, end: int) -> Result<
    StripPiece,
    Seq<char>,
> {
    match byte_holder(strips, cursor, 0) {
        None => Err("chunk layout ends before frame"@),
        Some(i) => Ok(
            StripPiece {
                strip_index: i as usize,
                offset: (cursor - strip_start(strips[i])) as u64,
                length: piece_length(strips[i], cursor, end) as u64,
            },
        ),
    }
}

fn next_piece(strips: &[ChunkStrip], cursor: u64, end: u64) -> (r: Result<StripPiece, String>)
    requires
        cursor < end,
    ensures
        (match r {
            Ok(piece) => Ok(piece),
            Err(error) => Err(error@),
        }) == next_piece_of(strip_models(strips@), cursor as int, end as int),
        r matches Ok(piece) ==> piece_fits(strip_models(strips@), piece) && piece.length <= end
            - cursor,
{
    let i: usize = match find_holder(strips, cursor) {
        Some(i) => i,
        None => {
            return Err(text("chunk layout ends before frame"));
        },
    };
    let strip = &strips[i];
    assert(strip_models(strips@)[i as int] == strip@);
    let start: u64 = strip.chunk_offset as u64 * 1024;
    let strip_end: u64 = start + strip.capacity as u64 * 1024;
    Ok(StripPiece { strip_index: i, offset: cursor - start, length: min_u64(end, strip_end) - cursor })
}

/// Taking the part at the cursor and going on behind it gives the parts of the
/// range in their order.
pub proof fn law_pieces_come_in_turn(strips: Seq<StripModel>, cursor: int, end: int)
    requires
        0 <= cursor < end <= u64::MAX,
    ensures
        pieces_of(strips, cursor, end) == (match next_piece_of(strips, cursor, end) {
            Err(error) => Err(error),
            Ok(piece) => after_pieces(
                seq![piece],
                pieces_of(strips, cursor + piece.length, end),
            ),
        }),
{
    lemma_byte_holder(strips, cursor, 0);
}

/// Sum of the lengths of the parts.
pub open spec fn pieces_length(pieces: Seq<StripPiece>) -> int
    decreases pieces.len(),
{
    if pieces.len() == 0 {
        0
    } else {
        pieces[0].length + pieces_length(pieces.skip(1))
    }
}

/// The part continues a range at `cursor` within one of the strips.
pub open spec fn piece_fits(strips: Seq<StripModel>, piece: StripPiece) -> bool {
    &&& piece.strip_index < strips.len()
    &&& 0 < piece.length
    &&& piece.offset + piece.length <= strips[piece.strip_index as int].capacity * 1024
}

/// The parts of a chunk range lie within their strips and have together the
/// length of the range.
pub proof fn law_pieces_cover_range(strips: Seq<StripModel>, cursor: int, end: int)
    requires
        0 <= cursor <= end <= u64::MAX,
        strips.len() <= usize::MAX,
    ensures
        pieces_of(strips, cursor, end) matches Ok(pieces) ==> pieces_length(pieces) == end - cursor
            && forall|i: int|
            0 <= i < pieces.len() ==> piece_fits(strips, #[trigger] pieces[i]),
    decreases end - cursor,
{
    if cursor < end {
        lemma_byte_holder(strips, cursor, 0);
        match byte_holder(strips, cursor, 0) {
            Some(k) => {
                let length = piece_length(strips[k], cursor, end);
                if length > 0 {
                    law_pieces_cover_range(strips, cursor + length, end);
                    match pieces_of(strips, cursor + length, end) {
                        Ok(tail) => {
                            let piece = StripPiece {
                                strip_index: k as usize,
                                offset: (cursor - strip_start(strips[k])) as u64,
                                length: length as u64,
                            };
                            let pieces = seq![piece] + tail;
                            assert(pieces.skip(1) =~= tail);
                            assert forall|i: int| 0 <= i < pieces.len() implies piece_fits(
                                strips,
                                #[trigger] pieces[i],
                            ) by {
                                if i > 0 {
                                    assert(pieces[i] == tail[i - 1]);
                                }
                            }
                        },
                        Err(_) => {},
                    }
                }
            },
            None => {},
        }
    }
}

/// A read of a part of a segment.
#[derive(Debug, Clone, Copy, PartialEq, Eq, Structural)]
pub struct SegmentRead {
    pub segment: Segment,
    /// Offset within the segment.
    pub offset: u64,
    pub length: u32,
}

/// First copy from `from` on that is not marked.
pub open spec fn first_copy(segments: Seq<Segment>, unavailable: Seq<Segment>, from: int) -> Option<
    Segment,
>
    decreases segments.len() - from,
{
    if from < 0 || from >= segments.len() {
        None
    } else if !unavailable.contains(segments[from]) {
        Some(segments[from])
    } else {
        first_copy(segments, unavailable, from + 1)
    }
}

/// The reads of an erasure-coded strip's data from `cursor` to `end`.
pub open spec fn shard_reads(
    strip: StripModel,
    segments: Seq<Segment>,
    data_num: int,
    shard_bytes: int,
    cursor: int,
    end: int,
) -> Result<Seq<SegmentRead>, Seq<char>>
    decreases end - cursor,
{
    if cursor >= end || shard_bytes <= 0 {
        Ok(Seq::empty())
    } else {
        let shard = cursor / shard_bytes;
        let local = cursor % shard_bytes;
        let rest = shard_bytes - local;
        let take = if end - cursor < rest {
            end - cursor
        } else {
            rest
        };
        if shard > usize::MAX {
            Err("EC shard index overflows"@)
        } else if shard >= data_num {
            Err("EC data range exceeds strip "@ + decimal(strip.strip_sequence as nat))
        } else if strip.unavailable_segments.contains(segments[shard]) {
            Err("EC data shard "@ + decimal(shard as nat) + " is unavailable"@)
        } else if take > u32::MAX {
            Err("EC frame range exceeds RPC size"@)
        } else if take <= 0 {
            Ok(Seq::empty())
        } else {
            after_pieces(
                seq![
                    SegmentRead {
                        segment: segments[shard],
                        offset: local as u64,
                        length: take as u32,
                    },
                ],
                shard_reads(strip, segments, data_num, shard_bytes, cursor + take, end),
            )
        }
    }
}

/// The reads of a strip's data, or why it cannot be read.
pub open spec fn strip_reads(strip: StripModel, offset: u64, length: u64) -> Result<
    Seq<SegmentRead>,
    Seq<char>,
> {
    let sequence = decimal(strip.strip_sequence as nat);
    match strip.strip {
        None => Err("strip "@ + sequence + " has no physical layout"@),
        Some(LayoutModel::Mirror { segments }) => match first_copy(
            segments,
            strip.unavailable_segments,
            0,
        ) {
            None => Err("all mirrors unavailable for strip "@ + sequence),
            Some(segment) => if length > u32::MAX {
                Err("frame range exceeds RPC size"@)
            } else {
                Ok(seq![SegmentRead { segment, offset, length: length as u32 }])
            },
        },
        Some(LayoutModel::Ec { data_num, segments, .. }) => if data_num == 0 || segments.len()
            < data_num {
            Err("invalid EC strip "@ + sequence)
        } else {
            let shard_bytes = clip_u64(segments[0].unit_count * (strip.unit_kb * 1024));
            if shard_bytes == 0 {
                Err("empty EC shard "@ + sequence)
            } else {
                shard_reads(
                    strip,
                    segments,
                    data_num as int,
                    shard_bytes as int,
                    offset as int,
                    clip_u64(offset + length) as int,
                )
            }
        },
    }
}

fn find_copy(segments: &[Segment], unavailable: &[Segment]) -> (r: Option<Segment>)
    ensures
        r == first_copy(segments@, unavailable@, 0),
{
    let mut i: usize = 0;
    while i < segments.len()
        invariant
            i <= segments.len(),
            first_copy(segments@, unavailable@, 0) == first_copy(
                segments@,
                unavailable@,
                i as int,
            ),
        decreases segments.len() - i,
    {
        if !contains_segment(unavailable, &segments[i]) {
            return Some(segments[i]);
        }
        i = i + 1;
    }
    None
}

/// The read of an erasure-coded strip's data that begins at `cursor`.
pub open spec fn shard_read_of(
    strip: StripModel,
    segments: Seq<Segment>,
    data_num: int,
    shard_bytes: int,
    cursor: int,
    end: int,
) -> Result<SegmentRead, Seq<char>> {
    let shard = cursor / shard_bytes;
    let local = cursor % shard_bytes;
    let take = if end - cursor < shard_bytes - local {
        end - cursor
    } else {
        shard_bytes - local
    };
    if shard > usize::MAX {
        Err("EC shard index overflows"@)
    } else if shard >= data_num {
        Err("EC data range exceeds strip "@ + decimal(strip.strip_sequence as nat))
    } else if strip.unavailable_segments.contains(segments[shard]) {
        Err("EC data shard "@ + decimal(shard as nat) + " is unavailable"@)
    } else if take > u32::MAX {
        Err("EC frame range exceeds RPC size"@)
    } else {
        Ok(SegmentRead { segment: segments[shard], offset: local as u64, length: take as u32 })
    }
}

/// The read of a strip's data that begins at `cursor`: one available copy of a
/// mirror, the data shard at the cursor of an erasure-coded strip.
pub open spec fn next_read_of(strip: StripModel, cursor: int, end: int) -> Result<
    SegmentRead,
    Seq<char>,
> {
    let sequence = decimal(strip.strip_sequence as nat);
    match strip.strip {
        None => Err("strip "@ + sequence + " has no physical layout"@),
        Some(LayoutModel::Mirror { segments }) => match first_copy(
            segments,
            strip.unavailable_segments,
            0,
        ) {
            None => Err("all mirrors unavailable for strip "@ + sequence),
            Some(segment) => if end - cursor > u32::MAX {
                Err("frame range exceeds RPC size"@)
            } else {
                Ok(SegmentRead { segment, offset: cursor as u64, length: (end - cursor) as u32 })
            },
        },
        Some(LayoutModel::Ec { data_num, segments, .. }) => if data_num == 0 || segments.len()
            < data_num {
            Err("invalid EC strip "@ + sequence)
        } else {
            let shard_bytes = clip_u64(segments[0].unit_count * (strip.unit_kb * 1024));
            if shard_bytes == 0 {
                Err("empty EC shard "@ + sequence)
            } else {
                shard_read_of(strip, segments, data_num as int, shard_bytes as int, cursor, end)
            }
        },
    }
}

fn next_read(strip: &ChunkStrip, cursor: u64, end: u64) -> (r: Result<SegmentRead, String>)
    requires
        cursor < end,
    ensures
        (match r {
            Ok(read) => Ok(read),
            Err(error) => Err(error@),
        }) == next_read_of(strip@, cursor as int, end as int),
        r matches Ok(read) ==> 0 < read.length <= end - cursor,
{
    let sequence: u64 = strip.strip_sequence as u64;
    match &strip.strip {
        None => Err(text_number_text("strip ", sequence, " has no physical layout")),
        Some(Strip::MirrorStrip(mirror)) => {
            let segment = match find_copy(&mirror.segments, &strip.unavailable_segments) {
                Some(segment) => segment,
                None => {
                    return Err(text_number("all mirrors unavailable for strip ", sequence));
                },
            };
            let length: u64 = end - cursor;
            if length > u32::MAX as u64 {
                return Err(text("frame range exceeds RPC size"));
            }
            Ok(SegmentRead { segment, offset: cursor, length: length as u32 })
        },
        Some(Strip::EcStrip(ec)) => {
            let data_num: usize = ec.data_num as usize;
            if data_num == 0 || ec.segments.len() < data_num {
                return Err(text_number("invalid EC strip ", sequence));
            }
            let unit_bytes: u64 = strip.unit_kb as u64 * 1024;
            let shard_bytes: u64 = sat_mul_u64(ec.segments[0].unit_count as u64, unit_bytes);
            if shard_bytes == 0 {
                return Err(text_number("empty EC shard ", sequence));
            }
            let shard_wide: u64 = cursor / shard_bytes;
            if shard_wide > usize::MAX as u64 {
                return Err(text("EC shard index overflows"));
            }
            let shard: usize = shard_wide as usize;
            if shard >= data_num {
                return Err(text_number("EC data range exceeds strip ", sequence));
            }
            let segment = ec.segments[shard];
            if contains_segment(&strip.unavailable_segments, &segment) {
                return Err(text_number_text("EC data shard ", shard_wide, " is unavailable"));
            }
            let local: u64 = cursor % shard_bytes;
            let take: u64 = min_u64(end - cursor, shard_bytes - local);
            if take > u32::MAX as u64 {
                return Err(text("EC frame range exceeds RPC size"));
            }
            Ok(SegmentRead { segment, offset: local, length: take as u32 })
        },
    }
}

/// Reading at the cursor and going on behind what was read gives the reads of a
/// strip's range in their order, and each read moves the cursor on.
pub proof fn law_reads_come_in_turn(strip: StripModel, cursor: u64, end: u64)
    requires
        cursor < end,
    ensures
        strip_reads(strip, cursor, (end - cursor) as u64) == (match next_read_of(
            strip,
            cursor as int,
            end as int,
        ) {
            Err(error) => Err(error),
            Ok(read) => after_pieces(
                seq![read],
                if read.length == end - cursor {
                    Ok(Seq::empty())
                } else {
                    strip_reads(
                        strip,
                        (cursor + read.length) as u64,
                        (end - cursor - read.length) as u64,
                    )
                },
            ),
        }),
        next_read_of(strip, cursor as int, end as int) matches Ok(read) ==> 0 < read.length <= end
            - cursor,
{
    match strip.strip {
        Some(LayoutModel::Mirror { .. }) => {
            match next_read_of(strip, cursor as int, end as int) {
                Ok(read) => {
                    assert(seq![read] + Seq::<SegmentRead>::empty() =~= seq![read]);
                },
                Err(_) => {},
            }
        },
        Some(LayoutModel::Ec { segments, .. }) => {
            let shard_bytes = clip_u64(segments[0].unit_count * (strip.unit_kb * 1024));
            if shard_bytes > 0 {
                vstd::arithmetic::div_mod::lemma_mod_bound(cursor as int, shard_bytes as int);
            }
        },
        None => {},
    }
}

/// A reading of a chunk range: the range that is left, and what is left of the
/// strip part that is being read.
#[derive(Debug, Clone, Copy)]
pub struct ChunkRead<'a> {
    chunk: &'a Chunk,
    cursor: u64,
    end: u64,
    strip_index: usize,
    strip_cursor: u64,
    strip_end: u64,
}

/// Model of a reading.
pub struct ChunkReadModel {
    pub strips: Seq<StripModel>,
    pub cursor: int,
    pub end: int,
    pub strip_index: int,
    pub strip_cursor: int,
    pub strip_end: int,
}

impl<'a> View for ChunkRead<'a> {
    type V = ChunkReadModel;

    closed spec fn view(&self) -> ChunkReadModel {
        ChunkReadModel {
            strips: self.chunk@.strips,
            cursor: self.cursor as int,
            end: self.end as int,
            strip_index: self.strip_index as int,
            strip_cursor: self.strip_cursor as int,
            strip_end: self.strip_end as int,
        }
    }
}

impl ChunkReadModel {
    /// The cursors lie within the range and the strip.
    pub open spec fn well_formed(self) -> bool {
        &&& 0 <= self.cursor <= self.end <= u64::MAX
        &&& 0 <= self.strip_cursor <= self.strip_end <= u64::MAX
        &&& self.strip_cursor < self.strip_end ==> 0 <= self.strip_index < self.strips.len()
    }
}

/// The reading once its next strip part is opened, where none is being read.
pub open spec fn opened(reading: ChunkReadModel) -> Result<ChunkReadModel, Seq<char>> {
    if reading.strip_cursor < reading.strip_end || reading.cursor >= reading.end {
        Ok(reading)
    } else {
        match next_piece_of(reading.strips, reading.cursor, reading.end) {
            Err(error) => Err(error),
            Ok(piece) => Ok(
                ChunkReadModel {
                    cursor: reading.cursor + piece.length,
                    strip_index: piece.strip_index as int,
                    strip_cursor: piece.offset as int,
                    strip_end: piece.offset + piece.length,
                    ..reading
                },
            ),
        }
    }
}

/// The reading and its next read, with the strip that it is from. None once the
/// whole range is read.
pub open spec fn next_of(reading: ChunkReadModel) -> (
    ChunkReadModel,
    Result<Option<(int, SegmentRead)>, Seq<char>>,
) {
    match opened(reading) {
        Err(error) => (reading, Err(error)),
        Ok(at) => if at.strip_cursor >= at.strip_end {
            (at, Ok(None))
        } else {
            match next_read_of(at.strips[at.strip_index], at.strip_cursor, at.strip_end) {
                Err(error) => (at, Err(error)),
                Ok(read) => (
                    ChunkReadModel { strip_cursor: at.strip_cursor + read.length, ..at },
                    Ok(Some((at.strip_index, read))),
                ),
            }
        },
    }
}

impl<'a> ChunkRead<'a> {
    /// A reading of a range of a chunk.
    pub fn new(chunk: &'a Chunk, offset: u64, length: u64) -> (r: Result<ChunkRead<'a>, String>)
        ensures
            match r {
                Err(error) => offset + length > u64::MAX && error@ == "frame read range overflows"@,
                Ok(reading) => offset + length <= u64::MAX && reading@.well_formed() && reading@ == (
                ChunkReadModel {
                    strips: chunk@.strips,
                    cursor: offset as int,
                    end: offset + length,
                    strip_index: 0,
                    strip_cursor: 0,
                    strip_end: 0,
                }),
            },
    {
        if length > u64::MAX - offset {
            return Err(text("frame read range overflows"));
        }
        Ok(
            ChunkRead {
                chunk,
                cursor: offset,
                end: offset + length,
                strip_index: 0,
                strip_cursor: 0,
                strip_end: 0,
            },
        )
    }

    /// The next read, with the index of its strip.
    pub fn step(&mut self) -> (r: Result<Option<(usize, SegmentRead)>, String>)
        requires
            old(self)@.well_formed(),
        ensures
            final(self)@ == next_of(old(self)@).0,
            final(self)@.well_formed(),
            (match r {
                Ok(Some((strip, read))) => Ok(Some((strip as int, read))),
                Ok(None) => Ok(None),
                Err(error) => Err(error@),
            }) == next_of(old(self)@).1,
            r matches Ok(Some((strip, _))) ==> strip < old(self)@.strips.len(),
    {
        if self.strip_cursor >= self.strip_end && self.cursor < self.end {
            let piece = match next_piece(&self.chunk.strips, self.cursor, self.end) {
                Ok(piece) => piece,
                Err(error) => {
                    return Err(error);
                },
            };
            self.cursor = self.cursor + piece.length;
            self.strip_index = piece.strip_index;
            self.strip_cursor = piece.offset;
            self.strip_end = piece.offset + piece.length;
        }
        if self.strip_cursor >= self.strip_end {
            return Ok(None);
        }
        let strip = &self.chunk.strips[self.strip_index];
        assert(self@.strips[self@.strip_index] == strip@);
        match next_read(strip, self.strip_cursor, self.strip_end) {
            Err(error) => Err(error),
            Ok(read) => {
                self.strip_cursor = self.strip_cursor + read.length as u64;
                Ok(Some((self.strip_index, read)))
            },
        }
    }
}

/// Bytes that are still to be read.
pub open spec fn bytes_left(reading: ChunkReadModel) -> int {
    reading.end - reading.cursor + (reading.strip_end - reading.strip_cursor)
}

proof fn lemma_next_read(reading: ChunkReadModel)
    requires
        reading.well_formed(),
        reading.strips.len() <= usize::MAX,
    ensures
        next_of(reading).0.well_formed(),
        next_of(reading).0.strips == reading.strips,
        next_of(reading).1 matches Ok(Some((_, read))) ==> bytes_left(next_of(reading).0)
            == bytes_left(reading) - read.length && read.length > 0,
        next_of(reading).1 matches Ok(None) ==> bytes_left(reading) == 0,
{
    if reading.strip_cursor >= reading.strip_end && reading.cursor < reading.end {
        lemma_byte_holder(reading.strips, reading.cursor, 0);
    }
    match opened(reading) {
        Ok(at) => {
            assert(bytes_left(at) == bytes_left(reading));
            if at.strip_cursor < at.strip_end {
                law_reads_come_in_turn(
                    at.strips[at.strip_index],
                    at.strip_cursor as u64,
                    at.strip_end as u64,
                );
            }
        },
        Err(_) => {},
    }
}

/// All the reads of a reading, or the error that ends it.
pub open spec fn reads_of(reading: ChunkReadModel) -> Result<Seq<SegmentRead>, Seq<char>>
    decreases bytes_left(reading),
    when reading.well_formed() && reading.strips.len() <= usize::MAX
    via reads_end
{
    match next_of(reading).1 {
        Err(error) => Err(error),
        Ok(None) => Ok(Seq::empty()),
        Ok(Some((_, read))) => after_pieces(seq![read], reads_of(next_of(reading).0)),
    }
}

#[via_fn]
proof fn reads_end(reading: ChunkReadModel) {
    lemma_next_read(reading);
}

/// The reads of a reading that comes to its end have together the length of the
/// range.
pub proof fn law_reading_is_complete(reading: ChunkReadModel)
    requires
        reading.well_formed(),
        reading.strips.len() <= usize::MAX,
    ensures
        reads_of(reading) matches Ok(reads) ==> reads_length(reads) == bytes_left(reading),
    decreases bytes_left(reading),
{
    lemma_next_read(reading);
    match next_of(reading).1 {
        Ok(Some((_, read))) => {
            law_reading_is_complete(next_of(reading).0);
            match reads_of(next_of(reading).0) {
                Ok(tail) => {
                    assert((seq![read] + tail).skip(1) =~= tail);
                },
                Err(_) => {},
            }
        },
        _ => {},
    }
}

/// Sum of the lengths of the reads.
pub open spec fn reads_length(reads: Seq<SegmentRead>) -> int
    decreases reads.len(),
{
    if reads.len() == 0 {
        0
    } else {
        reads[0].length + reads_length(reads.skip(1))
    }
}

/// The reads of an erasure-coded range have together the length of the range,
/// stay within a shard each, and touch no marked segment.
pub proof fn law_reads_cover_range(
    strip: StripModel,
    segments: Seq<Segment>,
    data_num: int,
    shard_bytes: int,
    cursor: int,
    end: int,
)
    requires
        0 < data_num <= segments.len(),
        0 < shard_bytes <= u64::MAX,
        0 <= cursor <= end <= u64::MAX,
    ensures
        shard_reads(strip, segments, data_num, shard_bytes, cursor, end) matches Ok(reads)
            ==> reads_length(reads) == end - cursor && forall|i: int|
            0 <= i < reads.len() ==> {
                let read = #[trigger] reads[i];
                &&& segments.take(data_num).contains(read.segment)
                &&& !strip.unavailable_segments.contains(read.segment)
                &&& read.offset + read.length <= shard_bytes
            },
    decreases end - cursor,
{
    if cursor < end {
        let shard = cursor / shard_bytes;
        let local = cursor % shard_bytes;
        let rest = shard_bytes - local;
        let take = if end - cursor < rest {
            end - cursor
        } else {
            rest
        };
        vstd::arithmetic::div_mod::lemma_mod_bound(cursor, shard_bytes);
        vstd::arithmetic::div_mod::lemma_div_pos_is_pos(cursor, shard_bytes);
        if shard < data_num && take <= u32::MAX && !strip.unavailable_segments.contains(
            segments[shard],
        ) {
            law_reads_cover_range(strip, segments, data_num, shard_bytes, cursor + take, end);
            match shard_reads(strip, segments, data_num, shard_bytes, cursor + take, end) {
                Ok(tail) => {
                    let read = SegmentRead {
                        segment: segments[shard],
                        offset: local as u64,
                        length: take as u32,
                    };
                    let reads = seq![read] + tail;
                    assert(reads.skip(1) =~= tail);
                    assert(segments.take(data_num)[shard] == segments[shard]);
                    assert forall|i: int| 0 <= i < reads.len() implies {
                        let read = #[trigger] reads[i];
                        &&& segments.take(data_num).contains(read.segment)
                        &&& !strip.unavailable_segments.contains(read.segment)
                        &&& read.offset + read.length <= shard_bytes
                    } by {
                        if i > 0 {
                            assert(reads[i] == tail[i - 1]);
                        }
                    }
                },
                Err(_) => {},
            }
        }
    }
}

/// A finalization waits until no write that the expired writer sent in time can
/// still arrive: the longest age of a write, the skew of the clocks and a margin
/// behind the end of the lease.
pub proof fn law_finalization_waits_out_writes(eligible_at_ms: u64, timings: FinalizeTimings)
    ensures
        ({
            let sum = eligible_at_ms + timings.max_write_request_age_ms + timings.max_clock_skew_ms
                + timings.scanner_margin_ms;
            &&& sum <= u64::MAX ==> safe_at(eligible_at_ms, timings) == sum
            &&& sum > u64::MAX ==> safe_at(eligible_at_ms, timings) == u64::MAX
        }),
        failure_code(FailedStep::Query) == 1,
        failure_code(FailedStep::Delete) == 2,
        failure_code(FailedStep::Scan) == 3,
        failure_code(FailedStep::Seal) == 4,
{
}

proof fn lemma_first_holder(strips: Seq<StripModel>, offset: int, from: int, k: int)
    requires
        0 <= from <= k < strips.len(),
        holds_byte(strips[k], offset),
        forall|j: int| from <= j < k ==> !holds_byte(#[trigger] strips[j], offset),
    ensures
        byte_holder(strips, offset, from) == Some(k),
    decreases k - from,
{
    if from < k {
        assert(!holds_byte(strips[from], offset));
        lemma_first_holder(strips, offset, from + 1, k);
    }
}

/// The part of a range that begins at a byte lies in the first strip that holds this
/// byte, at the byte's distance from the strip's start, and ends with the range or with
/// the strip, whichever comes first.
pub proof fn law_parts_lie_in_their_strip(
    strips: Seq<StripModel>,
    cursor: int,
    end: int,
    k: int,
)
    requires
        0 <= cursor < end <= u64::MAX,
        0 <= k < strips.len() <= usize::MAX,
        strips[k].chunk_offset * 1024 <= cursor < (strips[k].chunk_offset + strips[k].capacity)
            * 1024,
        forall|j: int|
            0 <= j < k ==> !((#[trigger] strips[j]).chunk_offset * 1024 <= cursor && cursor < (
            strips[j].chunk_offset + strips[j].capacity) * 1024),
    ensures
        next_piece_of(strips, cursor, end) matches Ok(piece) && {
            &&& piece.strip_index == k
            &&& piece.offset == cursor - strips[k].chunk_offset * 1024
            &&& piece.length == (if end <= (strips[k].chunk_offset + strips[k].capacity) * 1024 {
                end - cursor
            } else {
                (strips[k].chunk_offset + strips[k].capacity) * 1024 - cursor
            })
        },
{
    assert(holds_byte(strips[k], cursor));
    assert forall|j: int| 0 <= j < k implies !holds_byte(#[trigger] strips[j], cursor) by {
        assert(!(strips[j].chunk_offset * 1024 <= cursor && cursor < (strips[j].chunk_offset
            + strips[j].capacity) * 1024));
    }
    lemma_first_holder(strips, cursor, 0, k);
}

/// A mirrored strip is read from a copy that is not marked, at the same offset. An
/// erasure-coded one is read from the data shard that the offset falls into, at the
/// rest of the offset within it, and not beyond it.
pub proof fn law_reads_go_to_the_data(strip: StripModel, cursor: u64, end: u64)
    requires
        cursor < end,
    ensures
        next_read_of(strip, cursor as int, end as int) matches Ok(read) ==> match strip.strip {
            Some(LayoutModel::Mirror { segments }) => {
                &&& segments.contains(read.segment)
                &&& !strip.unavailable_segments.contains(read.segment)
                &&& read.offset == cursor
                &&& read.length == end - cursor
            },
            Some(LayoutModel::Ec { data_num, segments, .. }) => {
                let size = segments[0].unit_count * (strip.unit_kb * 1024);
                &&& !strip.unavailable_segments.contains(read.segment)
                &&& size <= u64::MAX ==> exists|shard: int|
                    0 <= shard < data_num && (#[trigger] segments[shard]) == read.segment && cursor
                        == shard * size + read.offset && read.offset + read.length <= size
                &&& 0 < read.length <= end - cursor
            },
            None => false,
        },
{
    law_reads_come_in_turn(strip, cursor, end);
    if let Ok(read) = next_read_of(strip, cursor as int, end as int) {
        match strip.strip {
            Some(LayoutModel::Mirror { segments }) => {
                lemma_first_copy(segments, strip.unavailable_segments, 0);
            },
            Some(LayoutModel::Ec { data_num, segments, .. }) => {
                let size = segments[0].unit_count * (strip.unit_kb * 1024);
                assert(size >= 0) by (nonlinear_arith)
                    requires
                        size == segments[0].unit_count * (strip.unit_kb * 1024),
                ;
                if size <= u64::MAX {
                    let c = cursor as int;
                    vstd::arithmetic::div_mod::lemma_fundamental_div_mod(c, size);
                    vstd::arithmetic::div_mod::lemma_mod_bound(c, size);
                    vstd::arithmetic::div_mod::lemma_div_pos_is_pos(c, size);
                    let shard = c / size;
                    assert(size * shard == shard * size) by (nonlinear_arith);
                    assert(segments[shard] == read.segment);
                }
            },
            None => {},
        }
    }
}

proof fn lemma_first_copy(segments: Seq<Segment>, unavailable: Seq<Segment>, from: int)
    requires
        0 <= from,
    ensures
        first_copy(segments, unavailable, from) matches Some(copy) ==> segments.contains(copy)
            && !unavailable.contains(copy),
        first_copy(segments, unavailable, from) is None ==> forall|j: int|
            from <= j < segments.len() ==> unavailable.contains(#[trigger] segments[j]),
    decreases segments.len() - from,
{
    if from < segments.len() {
        if unavailable.contains(segments[from]) {
            lemma_first_copy(segments, unavailable, from + 1);
        } else {
            assert(segments.contains(segments[from]));
        }
    }
}

/// A mirrored strip can be read as long as one copy is not marked.
pub proof fn law_one_copy_suffices(strip: StripModel, cursor: u64, end: u64, k: int)
    requires
        cursor < end,
        end - cursor <= u32::MAX,
        strip.strip matches Some(LayoutModel::Mirror { segments }) && 0 <= k < segments.len()
            && !strip.unavailable_segments.contains(segments[k]),
    ensures
        next_read_of(strip, cursor as int, end as int) is Ok,
{
    if let Some(LayoutModel::Mirror { segments }) = strip.strip {
        lemma_first_copy(segments, strip.unavailable_segments, 0);
        if first_copy(segments, strip.unavailable_segments, 0) is None {
            assert(strip.unavailable_segments.contains(segments[k]));
        }
    }
}

} // verus!
