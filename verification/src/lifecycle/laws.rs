//! What holds of a chunk record over all its operations.
use vstd::prelude::*;
use crate::arith::{clip_u32, clip_u64};
use crate::lifecycle::error::LifecycleErrorModel;
use crate::lifecycle::handler::{
    acknowledged_closed, advanced, already_replaced, append_start, appended, closed_through,
    deletion, due_frees, emptied, inactive_refusal, new_chunk, overlaps, placed_from,
    range_deletion, reached, replacement_of, sealed, sealed_at_cursor, strips_by_overlap,
    unreferenced, with_retired, writer_expired, written_sealed, DeleteModel, ReplaceModel,
};
use crate::lifecycle::replace::{
    distinct_without, first_strip_fault, lemma_distinct_without, new_sequence, retained_sequence,
    strip_fault, valid_sequences,
};
use crate::types::{
    all_segments, lemma_capacity_concat, lemma_capacity_nonnegative, lemma_capacity_of_prefix,
    total_capacity, ChunkId, ChunkModel, ChunkState, ChunkType, IntentModel, Segment, StripModel,
};

verus! {

/// The strips lie one behind the other from the start of the chunk, and the
/// capacity of the chunk is the sum of theirs.
pub open spec fn well_laid(chunk: ChunkModel) -> bool {
    &&& chunk.capacity == total_capacity(chunk.strips)
    &&& offsets_follow(chunk.strips, 0)
}

/// Strip `i` begins where the capacities of those before it add up to.
pub open spec fn follows(strips: Seq<StripModel>, base: int, i: int) -> bool {
    strips[i].chunk_offset == base + total_capacity(strips.take(i))
}

/// Every strip begins where those before it end.
pub open spec fn offsets_follow(strips: Seq<StripModel>, base: int) -> bool {
    forall|i: int| 0 <= i < strips.len() ==> #[trigger] follows(strips, base, i)
}

/// No two strips share a sequence, and all sequences are below the next one.
pub open spec fn sequences_sound(chunk: ChunkModel) -> bool {
    &&& forall|i: int, j: int|
        0 <= i < j < chunk.strips.len() ==> (#[trigger] chunk.strips[i]).strip_sequence != (
        #[trigger] chunk.strips[j]).strip_sequence
    &&& forall|i: int|
        0 <= i < chunk.strips.len() ==> (#[trigger] chunk.strips[i]).strip_sequence
            < chunk.next_strip_sequence
}

/// The strips agree in place, size, sequence and segments.
pub open spec fn same_geometry(a: Seq<StripModel>, b: Seq<StripModel>) -> bool {
    a.len() == b.len() && forall|i: int|
        #![trigger a[i]]
        #![trigger b[i]]
        0 <= i < a.len() ==> a[i].chunk_offset == b[i].chunk_offset && a[i].capacity == b[i].capacity
            && a[i].strip_sequence == b[i].strip_sequence && a[i].segments() == b[i].segments()
}

proof fn lemma_same_geometry(a: Seq<StripModel>, b: Seq<StripModel>, n: int)
    requires
        same_geometry(a, b),
        0 <= n <= a.len(),
    ensures
        total_capacity(a.take(n)) == total_capacity(b.take(n)),
        all_segments(a.take(n)) == all_segments(b.take(n)),
    decreases n,
{
    if n > 0 {
        lemma_same_geometry(a, b, n - 1);
        assert(a.take(n).drop_last() =~= a.take(n - 1));
        assert(b.take(n).drop_last() =~= b.take(n - 1));
        assert(a.take(n).last() == a[n - 1]);
        assert(b.take(n).last() == b[n - 1]);
    } else {
        assert(a.take(0) =~= b.take(0));
    }
}

proof fn lemma_geometry_keeps(before: ChunkModel, after: ChunkModel)
    requires
        same_geometry(before.strips, after.strips),
        before.capacity == after.capacity,
        before.next_strip_sequence == after.next_strip_sequence,
    ensures
        well_laid(before) ==> well_laid(after),
        sequences_sound(before) ==> sequences_sound(after),
        all_segments(before.strips) == all_segments(after.strips),
{
    let n = before.strips.len() as int;
    assert forall|i: int| 0 <= i <= n implies #[trigger] total_capacity(after.strips.take(i))
        == total_capacity(before.strips.take(i)) by {
        lemma_same_geometry(before.strips, after.strips, i);
    }
    lemma_same_geometry(before.strips, after.strips, n);
    assert(before.strips.take(n) =~= before.strips);
    assert(after.strips.take(n) =~= after.strips);
    if well_laid(before) {
        assert forall|i: int| 0 <= i < after.strips.len() implies #[trigger] follows(
            after.strips,
            0,
            i,
        ) by {
            assert(follows(before.strips, 0, i));
            assert(total_capacity(after.strips.take(i)) == total_capacity(before.strips.take(i)));
        }
    }
    if sequences_sound(before) {
        assert forall|i: int, j: int| 0 <= i < j < after.strips.len() implies (
        #[trigger] after.strips[i]).strip_sequence != (#[trigger] after.strips[j]).strip_sequence by {
            assert(before.strips[i].strip_sequence != before.strips[j].strip_sequence);
        }
    }
}

proof fn lemma_written_geometry(strips: Seq<StripModel>, from: int, remaining: u32, now_ms: u64)
    ensures
        same_geometry(strips, written_sealed(strips, from, remaining, now_ms)),
    decreases strips.len() - from,
{
    if 0 <= from < strips.len() {
        let strip = strips[from];
        let written = if remaining <= strip.capacity {
            remaining
        } else {
            strip.capacity
        };
        if written != 0 {
            if strip.strip matches Some(crate::types::LayoutModel::Ec { .. }) {
                let next = strips.update(
                    from,
                    crate::lifecycle::handler::parity_sealed(strip, written, now_ms),
                );
                lemma_written_geometry(next, from + 1, (remaining - written) as u32, now_ms);
                let done = written_sealed(strips, from, remaining, now_ms);
                assert forall|i: int| 0 <= i < strips.len() implies (#[trigger] strips[i]).chunk_offset
                    == done[i].chunk_offset && strips[i].capacity == done[i].capacity
                    && strips[i].strip_sequence == done[i].strip_sequence && strips[i].segments()
                    == done[i].segments() by {
                    assert(next[i].segments() == strips[i].segments());
                    assert(next[i].chunk_offset == done[i].chunk_offset);
                }
            } else {
                lemma_written_geometry(strips, from + 1, remaining, now_ms);
            }
        }
    }
}

/// A new chunk is well laid.
pub proof fn law_new_chunk_is_well_laid(
    id: ChunkId,
    strips: Seq<StripModel>,
    strip_count: u32,
    chunk_type: ChunkType,
    writer_epoch: u64,
    writer_lease_ms: u64,
    now_ms: u64,
)
    requires
        total_capacity(strips) <= u32::MAX,
    ensures
        well_laid(
            new_chunk(id, strips, strip_count, chunk_type, writer_epoch, writer_lease_ms, now_ms),
        ),
{
    let placed = placed_from(strips, 0);
    lemma_capacity_nonnegative(strips);
    lemma_placed_prefixes(strips, 0);
    assert forall|i: int| 0 <= i < placed.len() implies #[trigger] follows(placed, 0, i) by {
        lemma_capacity_of_prefix(strips, i);
        assert(total_capacity(placed.take(i)) == total_capacity(strips.take(i)));
    }
    assert(total_capacity(placed.take(placed.len() as int)) == total_capacity(
        strips.take(strips.len() as int),
    ));
    assert(placed.take(placed.len() as int) =~= placed);
    assert(strips.take(strips.len() as int) =~= strips);
}

proof fn lemma_placed_prefixes(strips: Seq<StripModel>, base: u32)
    ensures
        forall|i: int|
            0 <= i <= strips.len() ==> #[trigger] total_capacity(placed_from(strips, base).take(i))
                == total_capacity(strips.take(i)),
{
    assert forall|i: int| 0 <= i <= strips.len() implies #[trigger] total_capacity(
        placed_from(strips, base).take(i),
    ) == total_capacity(strips.take(i)) by {
        crate::lifecycle::handler::lemma_placed_total(strips.take(i), base);
        assert(placed_from(strips, base).take(i) =~= placed_from(strips.take(i), base)) by {
            assert forall|k: int| 0 <= k < i implies placed_from(strips, base).take(i)[k]
                == placed_from(strips.take(i), base)[k] by {
                assert(strips.take(i).take(k) =~= strips.take(k));
            }
        }
    }
}

/// Appending keeps a chunk well laid.
pub proof fn law_append_keeps_layout(chunk: ChunkModel, strips: Seq<StripModel>, strip_count: u32)
    requires
        well_laid(chunk),
        total_capacity(chunk.strips) + total_capacity(strips) <= u32::MAX,
    ensures
        well_laid(appended(chunk, strips, strip_count)),
        appended(chunk, strips, strip_count).capacity == chunk.capacity + total_capacity(strips),
{
    let placed = placed_from(strips, chunk.capacity);
    let all = chunk.strips + placed;
    let n = chunk.strips.len() as int;
    lemma_capacity_nonnegative(chunk.strips);
    lemma_capacity_nonnegative(strips);
    lemma_placed_prefixes(strips, chunk.capacity);
    lemma_capacity_concat(chunk.strips, placed);
    assert(placed.take(placed.len() as int) =~= placed);
    assert(strips.take(strips.len() as int) =~= strips);
    assert(total_capacity(placed.take(placed.len() as int)) == total_capacity(
        strips.take(strips.len() as int),
    ));
    assert forall|i: int| 0 <= i < all.len() implies #[trigger] follows(all, 0, i) by {
        if i < n {
            assert(follows(chunk.strips, 0, i));
            assert(all.take(i) =~= chunk.strips.take(i));
            assert(all[i] == chunk.strips[i]);
        } else {
            assert(all.take(i) =~= chunk.strips + placed.take(i - n));
            lemma_capacity_concat(chunk.strips, placed.take(i - n));
            lemma_capacity_of_prefix(strips, i - n);
            assert(total_capacity(placed.take(i - n)) == total_capacity(strips.take(i - n)));
            assert(all[i] == placed[i - n]);
        }
    }
}

/// Appending gives the new strips the sequences behind all used ones, so that
/// sequences stay distinct.
pub proof fn law_append_keeps_sequences(
    chunk: ChunkModel,
    strips: Seq<StripModel>,
    strip_count: u32,
)
    requires
        sequences_sound(chunk),
        strips.len() == strip_count,
        append_start(chunk) + strip_count <= u32::MAX,
        forall|i: int|
            0 <= i < strips.len() ==> (#[trigger] strips[i]).strip_sequence == append_start(chunk) + i,
    ensures
        sequences_sound(appended(chunk, strips, strip_count)),
{
    let next = appended(chunk, strips, strip_count);
    let n = chunk.strips.len() as int;
    assert(chunk.next_strip_sequence == 0 ==> chunk.strips.len() == 0) by {
        if chunk.strips.len() > 0 {
            assert(chunk.strips[0].strip_sequence < chunk.next_strip_sequence);
        }
    }
    assert(append_start(chunk) == chunk.next_strip_sequence);
    assert forall|i: int| 0 <= i < next.strips.len() implies if i < n {
        (#[trigger] next.strips[i]).strip_sequence == chunk.strips[i].strip_sequence
    } else {
        next.strips[i].strip_sequence == append_start(chunk) + (i - n)
    } by {
        if i >= n {
            assert(next.strips[i] == placed_from(strips, chunk.capacity)[i - n]);
            assert(strips[i - n].strip_sequence == append_start(chunk) + (i - n));
        }
    }
    assert forall|i: int, j: int| 0 <= i < j < next.strips.len() implies (
    #[trigger] next.strips[i]).strip_sequence != (#[trigger] next.strips[j]).strip_sequence by {
        if j < n {
            assert(chunk.strips[i].strip_sequence != chunk.strips[j].strip_sequence);
        } else if i < n {
            assert(chunk.strips[i].strip_sequence < chunk.next_strip_sequence);
        }
    }
}

/// Advancing the cursor keeps layout, sequences and segments, moves the cursor
/// forward and leaves it within the capacity.
pub proof fn law_advance_keeps_layout(
    chunk: ChunkModel,
    writer_epoch: u64,
    expected_modify_ts: u64,
    cursor: u64,
    closed: Option<u32>,
    writer_lease_ms: u64,
    now_ms: u64,
)
    ensures
        advanced(
            chunk,
            writer_epoch,
            expected_modify_ts,
            cursor,
            closed,
            writer_lease_ms,
            now_ms,
        ) matches Ok(next) ==> {
            &&& well_laid(chunk) ==> well_laid(next)
            &&& sequences_sound(chunk) ==> sequences_sound(next)
            &&& all_segments(next.strips) == all_segments(chunk.strips)
            &&& chunk.acknowledged_cursor < next.acknowledged_cursor <= next.capacity * 1024
            &&& next.state == ChunkState::Active
        },
{
    if let Ok(next) = advanced(
        chunk,
        writer_epoch,
        expected_modify_ts,
        cursor,
        closed,
        writer_lease_ms,
        now_ms,
    ) {
        match closed {
            Some(sequence) => {
                assert(same_geometry(
                    chunk.strips,
                    closed_through(chunk.strips, sequence, now_ms),
                ));
            },
            None => {},
        }
        lemma_geometry_keeps(chunk, next);
    }
}

/// Sealing keeps layout, sequences and segments, and leaves the chunk sealed.
pub proof fn law_seal_keeps_layout(chunk: ChunkModel, seal_length: u32, now_ms: u64)
    ensures
        sealed(chunk, seal_length, now_ms) matches Ok(next) ==> {
            &&& well_laid(chunk) ==> well_laid(next)
            &&& sequences_sound(chunk) ==> sequences_sound(next)
            &&& all_segments(next.strips) == all_segments(chunk.strips)
            &&& next.state == ChunkState::Sealed
            &&& next.sealed_length <= next.capacity
        },
{
    if let Ok(next) = sealed(chunk, seal_length, now_ms) {
        let written = written_sealed(chunk.strips, 0, seal_length, now_ms);
        lemma_written_geometry(chunk.strips, 0, seal_length, now_ms);
        assert(same_geometry(written, next.strips));
        assert forall|i: int| 0 <= i < chunk.strips.len() implies (
        #[trigger] chunk.strips[i]).chunk_offset == next.strips[i].chunk_offset
            && chunk.strips[i].capacity == next.strips[i].capacity && chunk.strips[i].strip_sequence
            == next.strips[i].strip_sequence && chunk.strips[i].segments()
            == next.strips[i].segments() by {
            assert(written[i].capacity == next.strips[i].capacity);
        }
        assert(same_geometry(chunk.strips, next.strips));
        lemma_geometry_keeps(chunk, next);
    }
}

/// A sealed chunk takes no write and no second seal.
pub proof fn law_sealed_is_final(chunk: ChunkModel, seal_length: u32, now_ms: u64)
    requires
        sealed(chunk, seal_length, now_ms) is Ok,
    ensures
        forall|epoch: u64, expected: u64, cursor: u64, closed: Option<u32>, lease: u64, now: u64|
            (#[trigger] advanced(
                sealed(chunk, seal_length, now_ms)->Ok_0,
                epoch,
                expected,
                cursor,
                closed,
                lease,
                now,
            )) is Err,
        forall|length: u32, now: u64|
            (#[trigger] sealed(sealed(chunk, seal_length, now_ms)->Ok_0, length, now)) == Err::<
                ChunkModel,
                LifecycleErrorModel,
            >(inactive_refusal(ChunkState::Sealed)),
        forall|offset: u32, size: u32|
            (#[trigger] range_deletion(
                sealed(chunk, seal_length, now_ms)->Ok_0,
                offset,
                size,
            )) is Err,
{
}

/// Sum of the lengths to which strips were closed.
pub open spec fn closed_length(strips: Seq<StripModel>) -> int
    decreases strips.len(),
{
    if strips.len() == 0 {
        0
    } else {
        closed_length(strips.drop_last()) + strips.last().sealed_length
    }
}

proof fn lemma_closed_lengths(chunk: ChunkModel, now_ms: u64, from: int)
    requires
        well_laid(chunk),
        chunk.writer_epoch != 0,
        0 < chunk.acknowledged_cursor <= chunk.capacity * 1024,
        0 <= from <= chunk.strips.len(),
        reached(chunk.strips, chunk.acknowledged_cursor, 0) == reached(
            chunk.strips,
            chunk.acknowledged_cursor,
            from,
        ),
        chunk.acknowledged_cursor >= total_capacity(chunk.strips.take(from)) * 1024,
        closed_length(acknowledged_closed(chunk, now_ms).strips.take(from)) == total_capacity(
            chunk.strips.take(from),
        ),
        from == 0 || from <= reached(chunk.strips, chunk.acknowledged_cursor, 0),
    ensures
        closed_length(
            acknowledged_closed(chunk, now_ms).strips.take(
                reached(chunk.strips, chunk.acknowledged_cursor, 0),
            ),
        ) == (chunk.acknowledged_cursor + 1023) / 1024,
    decreases chunk.strips.len() - from,
{
    let strips = chunk.strips;
    let cursor = chunk.acknowledged_cursor;
    let done = acknowledged_closed(chunk, now_ms).strips;
    let n = reached(strips, cursor, 0);
    let before = total_capacity(strips.take(from));
    lemma_capacity_of_prefix(strips, from);
    if from == strips.len() {
        assert(strips.take(from) =~= strips);
    } else {
        let strip = strips[from];
        assert(follows(strips, 0, from));
        assert(strip.chunk_offset == before);
        assert(strips.take(from + 1).drop_last() =~= strips.take(from));
        assert(strips.take(from + 1).last() == strip);
        lemma_capacity_of_prefix(strips, from + 1);
        assert(done.take(from + 1).drop_last() =~= done.take(from));
        assert(done.take(from + 1).last() == done[from]);
        if cursor <= strip.start_byte() {
            assert(cursor == before * 1024);
        } else if cursor < strip.end_byte() {
            assert(n == from + 1);
            assert(done[from].sealed_length == (cursor - strip.start_byte() + 1023) / 1024);
            assert((cursor - before * 1024 + 1023) / 1024 == (cursor + 1023) / 1024 - before);
        } else {
            lemma_reached_above(strips, cursor, from + 1);
            assert(n >= from + 1);
            assert(done[from].sealed_length == strip.capacity);
            lemma_closed_lengths(chunk, now_ms, from + 1);
        }
    }
}

proof fn lemma_reached_above(strips: Seq<StripModel>, cursor: u64, from: int)
    requires
        0 <= from <= strips.len(),
    ensures
        from <= reached(strips, cursor, from) <= strips.len(),
    decreases strips.len() - from,
{
    if from < strips.len() && cursor > strips[from].start_byte() && cursor
        >= strips[from].end_byte() {
        lemma_reached_above(strips, cursor, from + 1);
    }
}

/// The strips that sealing an expired chunk closes hold, together, exactly what
/// its writer acknowledged: their lengths add up to the sealed length.
pub proof fn law_expired_seal_covers_cursor(chunk: ChunkModel, now_ms: u64)
    requires
        writer_expired(chunk, now_ms),
        well_laid(chunk),
        0 < chunk.acknowledged_cursor <= chunk.capacity * 1024,
    ensures
        closed_length(
            sealed_at_cursor(chunk, now_ms).strips.take(
                reached(chunk.strips, chunk.acknowledged_cursor, 0),
            ),
        ) == sealed_at_cursor(chunk, now_ms).sealed_length,
        well_laid(sealed_at_cursor(chunk, now_ms)),
        all_segments(sealed_at_cursor(chunk, now_ms).strips) == all_segments(chunk.strips),
{
    let closing = ChunkModel {
        state: ChunkState::Sealed,
        modify_ts: clip_u64(chunk.modify_ts + 1),
        sealed_ts_ms: now_ms,
        sealed_length: clip_u32((chunk.acknowledged_cursor + 1023) / 1024),
        ..chunk
    };
    assert(closing.strips.take(0) =~= Seq::<StripModel>::empty());
    assert(acknowledged_closed(closing, now_ms).strips.take(0) =~= Seq::<StripModel>::empty());
    lemma_closed_lengths(closing, now_ms, 0);
    lemma_geometry_keeps(closing, sealed_at_cursor(chunk, now_ms));
}

proof fn lemma_contiguous(strips: Seq<StripModel>, from: int, expected_offset: u32)
    requires
        0 <= from <= strips.len(),
        first_strip_fault(strips, from, expected_offset) is None,
    ensures
        forall|j: int|
            from <= j < strips.len() ==> #[trigger] follows(
                strips,
                expected_offset - total_capacity(strips.take(from)),
                j,
            ),
    decreases strips.len() - from,
{
    if from < strips.len() {
        assert(strip_fault(strips[from], expected_offset) is None);
        lemma_contiguous(
            strips,
            from + 1,
            (expected_offset + strips[from].capacity) as u32,
        );
        assert(strips.take(from + 1).drop_last() =~= strips.take(from));
        assert(strips.take(from + 1).last() == strips[from]);
        assert forall|j: int| from <= j < strips.len() implies #[trigger] follows(
            strips,
            expected_offset - total_capacity(strips.take(from)),
            j,
        ) by {
            if j > from {
                assert(follows(
                    strips,
                    expected_offset + strips[from].capacity - total_capacity(strips.take(from + 1)),
                    j,
                ));
            }
        }
    }
}

proof fn lemma_spliced(strips: Seq<StripModel>, start: int, end: int, replacement: Seq<StripModel>)
    requires
        0 <= start <= end <= strips.len(),
        offsets_follow(strips, 0),
        offsets_follow(replacement, total_capacity(strips.take(start))),
        total_capacity(replacement) == total_capacity(strips.subrange(start, end)),
    ensures
        total_capacity(strips.take(start) + replacement + strips.skip(end)) == total_capacity(strips),
        offsets_follow(strips.take(start) + replacement + strips.skip(end), 0),
{
    let a = strips.take(start);
    let b = strips.subrange(start, end);
    let c = strips.skip(end);
    let next = a + replacement + c;
    assert(strips =~= a + b + c);
    lemma_capacity_concat(a, b);
    lemma_capacity_concat(a + b, c);
    lemma_capacity_concat(a, replacement);
    lemma_capacity_concat(a + replacement, c);
    assert forall|i: int| 0 <= i < next.len() implies #[trigger] follows(next, 0, i) by {
        if i < start {
            assert(follows(strips, 0, i));
            assert(next.take(i) =~= strips.take(i));
            assert(next[i] == strips[i]);
        } else if i < start + replacement.len() {
            let j = i - start;
            assert(follows(replacement, total_capacity(a), j));
            assert(next[i] == replacement[j]);
            assert(next.take(i) =~= a + replacement.take(j));
            lemma_capacity_concat(a, replacement.take(j));
        } else {
            let j = i - start - replacement.len();
            assert(follows(strips, 0, end + j));
            assert(next[i] == strips[end + j]);
            assert(next.take(i) =~= a + replacement + c.take(j));
            assert(strips.take(end + j) =~= a + b + c.take(j));
            lemma_capacity_concat(a + replacement, c.take(j));
            lemma_capacity_concat(a + b, c.take(j));
        }
    }
}

/// Replacing a strip range keeps the chunk well laid and of the same capacity.
pub proof fn law_replacement_keeps_layout(
    chunk: ChunkModel,
    chunk_id: ChunkId,
    expected_modify_ts: u64,
    start_index: u32,
    old_strips: Seq<StripModel>,
    replacement: Seq<StripModel>,
    operation_id: ChunkId,
    not_before_ms: u64,
)
    requires
        well_laid(chunk),
    ensures
        replacement_of(
            chunk,
            chunk_id,
            expected_modify_ts,
            start_index,
            old_strips,
            replacement,
            operation_id,
            not_before_ms,
        ) matches Ok(ReplaceModel::Publish { chunk: next, .. }) ==> {
            &&& well_laid(next)
            &&& next.capacity == chunk.capacity
        },
{
    let start = start_index as int;
    let end = start + old_strips.len();
    if let Ok(ReplaceModel::Publish { chunk: next, .. }) = replacement_of(
        chunk,
        chunk_id,
        expected_modify_ts,
        start_index,
        old_strips,
        replacement,
        operation_id,
        not_before_ms,
    ) {
        lemma_contiguous(replacement, 0, replacement[0].chunk_offset);
        assert(replacement.take(0) =~= Seq::<StripModel>::empty());
        assert(chunk.strips[start] == old_strips[0]);
        assert(follows(chunk.strips, 0, start));
        assert forall|j: int| 0 <= j < replacement.len() implies #[trigger] follows(
            replacement,
            total_capacity(chunk.strips.take(start)),
            j,
        ) by {
            assert(total_capacity(replacement.take(0)) == 0);
            assert(follows(
                replacement,
                replacement[0].chunk_offset - total_capacity(replacement.take(0)),
                j,
            ));
        }
        lemma_spliced(chunk.strips, start, end, replacement);
    }
}

proof fn lemma_ascending(next: u32, strips: Seq<StripModel>, i: int, j: int)
    requires
        forall|k: int| 0 < k < strips.len() ==> #[trigger] new_sequence(next, strips, k),
        0 <= i < j < strips.len(),
    ensures
        strips[i].strip_sequence < strips[j].strip_sequence,
    decreases j - i,
{
    assert(new_sequence(next, strips, j));
    if i < j - 1 {
        lemma_ascending(next, strips, i, j - 1);
    }
}

/// Replacing a strip range keeps the sequences distinct.
pub proof fn law_replacement_keeps_sequences(
    chunk: ChunkModel,
    chunk_id: ChunkId,
    expected_modify_ts: u64,
    start_index: u32,
    old_strips: Seq<StripModel>,
    replacement: Seq<StripModel>,
    operation_id: ChunkId,
    not_before_ms: u64,
)
    requires
        sequences_sound(chunk),
    ensures
        replacement_of(
            chunk,
            chunk_id,
            expected_modify_ts,
            start_index,
            old_strips,
            replacement,
            operation_id,
            not_before_ms,
        ) matches Ok(ReplaceModel::Publish { chunk: next, .. }) ==> sequences_sound(next),
{
    let start = start_index as int;
    let end = start + old_strips.len();
    let m = replacement.len() as int;
    if let Ok(ReplaceModel::Publish { chunk: next, .. }) = replacement_of(
        chunk,
        chunk_id,
        expected_modify_ts,
        start_index,
        old_strips,
        replacement,
        operation_id,
        not_before_ms,
    ) {
        assert(valid_sequences(chunk, start, end, replacement));
        assert(chunk.strips[start] == old_strips[0]);
        assert(replacement[0].strip_sequence < chunk.next_strip_sequence);
        if m > 1 {
            assert(new_sequence(chunk.next_strip_sequence, replacement, m - 1));
        }
        assert(chunk.next_strip_sequence <= next.next_strip_sequence);
        assert forall|i: int| 0 <= i < next.strips.len() implies (
        #[trigger] next.strips[i]).strip_sequence < next.next_strip_sequence by {
            if i < start {
                assert(next.strips[i] == chunk.strips[i]);
            } else if i < start + m {
                assert(next.strips[i] == replacement[i - start]);
                if i - start < m - 1 {
                    lemma_ascending(chunk.next_strip_sequence, replacement, i - start, m - 1);
                }
            } else {
                assert(next.strips[i] == chunk.strips[i - m + old_strips.len()]);
            }
        }
        assert forall|i: int, j: int| 0 <= i < j < next.strips.len() implies (
        #[trigger] next.strips[i]).strip_sequence != (#[trigger] next.strips[j]).strip_sequence by {
            let oi = if i < start {
                i
            } else {
                i - m + old_strips.len()
            };
            let oj = if j < start {
                j
            } else {
                j - m + old_strips.len()
            };
            let i_new = start <= i < start + m;
            let j_new = start <= j < start + m;
            if i_new && j_new {
                assert(next.strips[i] == replacement[i - start]);
                assert(next.strips[j] == replacement[j - start]);
                lemma_ascending(chunk.next_strip_sequence, replacement, i - start, j - start);
            } else if i_new {
                assert(next.strips[i] == replacement[i - start]);
                assert(next.strips[j] == chunk.strips[oj]);
                assert(!retained_sequence(
                    chunk.strips,
                    start,
                    end,
                    replacement[i - start].strip_sequence,
                ));
            } else if j_new {
                assert(next.strips[j] == replacement[j - start]);
                assert(next.strips[i] == chunk.strips[oi]);
                assert(!retained_sequence(
                    chunk.strips,
                    start,
                    end,
                    replacement[j - start].strip_sequence,
                ));
            } else {
                assert(next.strips[i] == chunk.strips[oi]);
                assert(next.strips[j] == chunk.strips[oj]);
                assert(chunk.strips[oi].strip_sequence != chunk.strips[oj].strip_sequence);
            }
        }
    }
}

/// A replacement that was published answers a retry with the record, unchanged.
/// The retry must still find its old range within the strips: one that made the
/// last strips fewer is refused as out of range instead.
pub proof fn law_replacement_retry(
    chunk: ChunkModel,
    chunk_id: ChunkId,
    expected_modify_ts: u64,
    start_index: u32,
    old_strips: Seq<StripModel>,
    replacement: Seq<StripModel>,
    operation_id: ChunkId,
    first_not_before_ms: u64,
    retry_not_before_ms: u64,
)
    requires
        start_index + old_strips.len() <= chunk.strips.len() - old_strips.len() + replacement.len(),
    ensures
        replacement_of(
            chunk,
            chunk_id,
            expected_modify_ts,
            start_index,
            old_strips,
            replacement,
            operation_id,
            first_not_before_ms,
        ) matches Ok(ReplaceModel::Publish { chunk: next, .. }) ==> replacement_of(
            next,
            chunk_id,
            expected_modify_ts,
            start_index,
            old_strips,
            replacement,
            operation_id,
            retry_not_before_ms,
        ) == Ok::<ReplaceModel, LifecycleErrorModel>(ReplaceModel::Applied(next)),
{
    let start = start_index as int;
    if let Ok(ReplaceModel::Publish { chunk: next, .. }) = replacement_of(
        chunk,
        chunk_id,
        expected_modify_ts,
        start_index,
        old_strips,
        replacement,
        operation_id,
        first_not_before_ms,
    ) {
        assert(next.strips.subrange(start, start + replacement.len()) =~= replacement);
        assert(already_replaced(next, expected_modify_ts, start, replacement, operation_id));
    }
}

/// A replacement commits exactly the segments that are new, and retires exactly
/// those that only the replaced strips held.
pub proof fn law_replacement_segments(
    chunk: ChunkModel,
    chunk_id: ChunkId,
    expected_modify_ts: u64,
    start_index: u32,
    old_strips: Seq<StripModel>,
    replacement: Seq<StripModel>,
    operation_id: ChunkId,
    not_before_ms: u64,
)
    ensures
        replacement_of(
            chunk,
            chunk_id,
            expected_modify_ts,
            start_index,
            old_strips,
            replacement,
            operation_id,
            not_before_ms,
        ) matches Ok(ReplaceModel::Publish { commit, chunk: next }) ==> {
            let retired = distinct_without(all_segments(old_strips), all_segments(replacement));
            &&& commit.no_duplicates()
            &&& retired.no_duplicates()
            &&& forall|s: Segment| #[trigger]
                commit.contains(s) <==> all_segments(replacement).contains(s) && !all_segments(
                    old_strips,
                ).contains(s)
            &&& forall|s: Segment| #[trigger]
                retired.contains(s) <==> all_segments(old_strips).contains(s) && !all_segments(
                    replacement,
                ).contains(s)
            &&& next.cleanup_intents == with_retired(
                chunk.cleanup_intents,
                Some(operation_id),
                retired,
                not_before_ms,
            )
        },
{
    lemma_distinct_without(all_segments(replacement), all_segments(old_strips));
    lemma_distinct_without(all_segments(old_strips), all_segments(replacement));
}

proof fn lemma_unreferenced(segments: Seq<Segment>, current: Seq<Segment>)
    ensures
        forall|s: Segment| #[trigger]
            unreferenced(segments, current).contains(s) <==> segments.contains(s)
                && !current.contains(s),
    decreases segments.len(),
{
    if segments.len() > 0 {
        let front = unreferenced(segments.drop_last(), current);
        let whole = unreferenced(segments, current);
        lemma_unreferenced(segments.drop_last(), current);
        assert forall|s: Segment| #[trigger] whole.contains(s) <==> segments.contains(s)
            && !current.contains(s) by {
            assert(segments[segments.len() - 1] == segments.last());
            if segments.contains(s) {
                let k = choose|k: int| 0 <= k < segments.len() && segments[k] == s;
                if k < segments.len() - 1 {
                    assert(segments.drop_last()[k] == s);
                }
            }
            if segments.drop_last().contains(s) {
                let k = choose|k: int|
                    0 <= k < segments.drop_last().len() && segments.drop_last()[k] == s;
                assert(segments[k] == s);
            }
            if whole != front {
                assert(whole[whole.len() - 1] == segments.last());
                if front.contains(s) {
                    let k = choose|k: int| 0 <= k < front.len() && front[k] == s;
                    assert(whole[k] == s);
                }
                if whole.contains(s) && s != segments.last() {
                    let k = choose|k: int| 0 <= k < whole.len() && whole[k] == s;
                    assert(front[k] == s);
                }
            }
        }
    }
}

/// Reconciling frees no segment that the chunk still uses.
pub proof fn law_reconcile_spares_current(
    intents: Seq<IntentModel>,
    current: Seq<Segment>,
    now_ms: u64,
    run: int,
    segment: Segment,
)
    requires
        0 <= run < due_frees(intents, current, now_ms).len(),
        current.contains(segment),
    ensures
        !due_frees(intents, current, now_ms)[run].contains(segment),
    decreases intents.len(),
{
    let front = due_frees(intents.drop_last(), current, now_ms);
    if run < front.len() {
        law_reconcile_spares_current(intents.drop_last(), current, now_ms, run, segment);
    } else {
        lemma_unreferenced(intents.last().retired_segments, current);
    }
}

/// Deleting a deleted chunk again gives back the complete tombstone, and what
/// every deletion frees is all that the record held.
pub proof fn law_deletion_retry(chunk: ChunkModel)
    ensures
        deletion(chunk) matches Ok(DeleteModel::Publish { tombstone, segments, emptied: last }) ==> {
            &&& segments == all_segments(chunk.strips)
            &&& deletion(last) == Ok::<DeleteModel, LifecycleErrorModel>(DeleteModel::Done(last))
            &&& chunk.strips.len() > 0 ==> deletion(tombstone) == Ok::<
                DeleteModel,
                LifecycleErrorModel,
            >(DeleteModel::Free { segments, emptied: last })
        },
{
}

proof fn lemma_split_contains(strips: Seq<StripModel>, offset: u32, end: u32, strip: StripModel)
    ensures
        strips.contains(strip) <==> strips_by_overlap(strips, offset, end, false).contains(strip)
            || strips_by_overlap(strips, offset, end, true).contains(strip),
        strips_by_overlap(strips, offset, end, false).contains(strip) ==> !overlaps(
            strip,
            offset,
            end,
        ),
        strips_by_overlap(strips, offset, end, true).contains(strip) ==> overlaps(
            strip,
            offset,
            end,
        ),
    decreases strips.len(),
{
    if strips.len() > 0 {
        let front = strips.drop_last();
        let last = strips.last();
        lemma_split_contains(front, offset, end, strip);
        let inside = overlaps(last, offset, end);
        let grown = strips_by_overlap(front, offset, end, inside);
        lemma_push_contains(grown, last, strip);
        lemma_push_contains(front, last, strip);
        assert(front.push(last) =~= strips);
    }
}

proof fn lemma_push_contains(seq: Seq<StripModel>, last: StripModel, strip: StripModel)
    ensures
        seq.push(last).contains(strip) <==> seq.contains(strip) || strip == last,
{
    assert(seq.push(last)[seq.len() as int] == last);
    if seq.contains(strip) {
        let k = choose|k: int| 0 <= k < seq.len() && seq[k] == strip;
        assert(seq.push(last)[k] == strip);
    }
    if seq.push(last).contains(strip) && strip != last {
        let k = choose|k: int| 0 <= k < seq.push(last).len() && seq.push(last)[k] == strip;
        assert(seq[k] == strip);
    }
}

/// A range deletion keeps exactly the strips that share nothing with the range.
pub proof fn law_range_deletion_keeps_the_rest(
    chunk: ChunkModel,
    offset: u32,
    size: u32,
    strip: StripModel,
)
    ensures
        range_deletion(chunk, offset, size) matches Ok((next, _)) ==> (next.strips.contains(strip)
            <==> chunk.strips.contains(strip) && !overlaps(
            strip,
            offset,
            (offset + size) as u32,
        )),
{
    lemma_split_contains(chunk.strips, offset, (offset + size) as u32, strip);
}

} // verus!
