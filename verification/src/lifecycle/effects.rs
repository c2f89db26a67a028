//! What the operations do to a chunk record, told on its fields.
use vstd::prelude::*;
use crate::allocator::StripAllocType;
use crate::lifecycle::handler::{
    acknowledged_closed, advanced, append_start, appended, cleaned_chunk, cursor_after, deletion,
    due_frees, group_holds_any, highest_sequence, is_reconcile_step, new_chunk, overlaps,
    pending_intents, placed_from, range_deletion, reached, replacement_of, requested_layout, sealed,
    sealed_at_cursor, strip_with_sequence, strips_by_overlap, surviving_nodes, units_for,
    unreferenced, writer_expired, written_sealed, DEFAULT_COPY_COUNT, DeleteModel, ReconcileStep,
    ReplaceModel,
};
use crate::lifecycle::replace::{
    first_strip_fault, lemma_distinct_without, new_sequence, retained_sequence, strip_fault,
    valid_sequences,
};
use crate::topology::DiskGroupEntry;
use crate::types::{
    all_segments, lemma_capacity_nonnegative, lemma_capacity_of_prefix, total_capacity, ChunkId,
    ChunkModel, ChunkState, ChunkType, EcState, IntentModel, LayoutModel, Segment, StripModel,
    StripType,
};

verus! {

/// The strips of a run lie one behind the other: each begins at the byte behind
/// the one before it.
pub open spec fn one_behind_the_other(strips: Seq<StripModel>) -> bool {
    forall|i: int, j: int|
        0 <= i < j < strips.len() && j == i + 1 ==> (#[trigger] strips[i]).chunk_offset
            + strips[i].capacity == (#[trigger] strips[j]).chunk_offset
}

/// An accepted advance moves the cursor to where the writer asked for, and
/// nowhere else. It closes the open strips up to the named sequence at their full
/// capacity, renews the lease from now on, counts one revision, and leaves all
/// else as it was.
pub proof fn law_advance_reaches_the_cursor(
    chunk: ChunkModel,
    writer_epoch: u64,
    expected_modify_ts: u64,
    cursor: u64,
    closed: Option<u32>,
    writer_lease_ms: u64,
    now_ms: u64,
)
    ensures
        advanced(
            chunk,
            writer_epoch,
            expected_modify_ts,
            cursor,
            closed,
            writer_lease_ms,
            now_ms,
        ) matches Ok(next) ==> {
            &&& next.acknowledged_cursor == cursor
            &&& chunk.modify_ts < u64::MAX ==> next.modify_ts == chunk.modify_ts + 1
            &&& now_ms + writer_lease_ms <= u64::MAX ==> next.writer_lease_deadline_ms == now_ms
                + writer_lease_ms
            &&& now_ms + writer_lease_ms > u64::MAX ==> next.writer_lease_deadline_ms == u64::MAX
            &&& next.closed_strip_sequence == if closed is Some {
                closed
            } else {
                chunk.closed_strip_sequence
            }
            &&& next.strips.len() == chunk.strips.len()
            &&& forall|i: int|
                0 <= i < chunk.strips.len() ==> (#[trigger] next.strips[i]) == (if closed is Some
                    && chunk.strips[i].strip_sequence <= closed->0 && chunk.strips[i].sealed_ts_ms
                    == 0 {
                    StripModel {
                        sealed_ts_ms: now_ms,
                        sealed_length: chunk.strips[i].capacity,
                        ..chunk.strips[i]
                    }
                } else {
                    chunk.strips[i]
                })
            &&& next == ChunkModel {
                acknowledged_cursor: next.acknowledged_cursor,
                modify_ts: next.modify_ts,
                writer_lease_deadline_ms: next.writer_lease_deadline_ms,
                closed_strip_sequence: next.closed_strip_sequence,
                strips: next.strips,
                ..chunk
            }
        },
{
}

proof fn lemma_sequence_found(strips: Seq<StripModel>, sequence: u32, from: int, k: int)
    requires
        0 <= from <= k < strips.len(),
        strips[k].strip_sequence == sequence,
        forall|j: int| from <= j < k ==> (#[trigger] strips[j]).strip_sequence != sequence,
    ensures
        strip_with_sequence(strips, sequence, from) == Some(k),
    decreases k - from,
{
    if from < k {
        assert(strips[from].strip_sequence != sequence);
        lemma_sequence_found(strips, sequence, from + 1, k);
    }
}

proof fn lemma_sequence_is(strips: Seq<StripModel>, sequence: u32, from: int)
    requires
        0 <= from,
    ensures
        match strip_with_sequence(strips, sequence, from) {
            Some(k) => from <= k < strips.len() && strips[k].strip_sequence == sequence && forall|
                j: int,
            |
                from <= j < k ==> (#[trigger] strips[j]).strip_sequence != sequence,
            None => forall|j: int|
                from <= j < strips.len() ==> (#[trigger] strips[j]).strip_sequence != sequence,
        },
    decreases strips.len() - from,
{
    if from < strips.len() && strips[from].strip_sequence != sequence {
        lemma_sequence_is(strips, sequence, from + 1);
    }
}

/// An advance is accepted exactly where the chunk is active, the writer and the
/// revision are the current ones, the cursor moves forward within the capacity,
/// and the strip to be closed is there, lies before the cursor, and no later
/// strip was closed before.
pub proof fn law_advance_is_accepted(
    chunk: ChunkModel,
    writer_epoch: u64,
    expected_modify_ts: u64,
    cursor: u64,
    closed: Option<u32>,
    writer_lease_ms: u64,
    now_ms: u64,
)
    requires
        forall|i: int|
            0 <= i < chunk.strips.len() ==> (#[trigger] chunk.strips[i]).chunk_offset
                + chunk.strips[i].capacity <= u32::MAX,
        forall|i: int, j: int|
            0 <= i < j < chunk.strips.len() ==> (#[trigger] chunk.strips[i]).strip_sequence != (
            #[trigger] chunk.strips[j]).strip_sequence,
    ensures
        advanced(
            chunk,
            writer_epoch,
            expected_modify_ts,
            cursor,
            closed,
            writer_lease_ms,
            now_ms,
        ) is Ok <==> {
            &&& writer_epoch != 0
            &&& writer_lease_ms != 0
            &&& chunk.state == ChunkState::Active
            &&& chunk.writer_epoch == writer_epoch
            &&& chunk.modify_ts == expected_modify_ts
            &&& chunk.acknowledged_cursor < cursor <= chunk.capacity * 1024
            &&& closed is Some ==> {
                &&& chunk.closed_strip_sequence is Some ==> chunk.closed_strip_sequence->0
                    <= closed->0
                &&& exists|i: int|
                    0 <= i < chunk.strips.len() && (#[trigger] chunk.strips[i]).strip_sequence
                        == closed->0 && (chunk.strips[i].chunk_offset + chunk.strips[i].capacity)
                        * 1024 <= cursor
            }
        },
{
    if closed is Some {
        lemma_sequence_is(chunk.strips, closed->0, 0);
        assert forall|i: int|
            0 <= i < chunk.strips.len() && (#[trigger] chunk.strips[i]).strip_sequence
                == closed->0 implies strip_with_sequence(chunk.strips, closed->0, 0) == Some(i) by {
            lemma_sequence_found(chunk.strips, closed->0, 0, i);
        }
    }
}

/// The units of a chunk from `first` on, so many.
pub open spec fn units(first: u32, count: u32) -> Set<int> {
    Set::new(|u: int| first <= u < first + count)
}

proof fn lemma_overlap_is_units(strip: StripModel, offset: u32, size: u32)
    requires
        size > 0,
        offset + size <= u32::MAX,
    ensures
        overlaps(strip, offset, (offset + size) as u32) <==> !units(offset, size).disjoint(
            units(strip.chunk_offset, strip.capacity),
        ) || (strip.capacity == 0 && offset < strip.chunk_offset < offset + size),
{
    let a = units(offset, size);
    let b = units(strip.chunk_offset, strip.capacity);
    let first = if offset < strip.chunk_offset {
        strip.chunk_offset as int
    } else {
        offset as int
    };
    if overlaps(strip, offset, (offset + size) as u32) && strip.capacity > 0 {
        assert(a.contains(first) && b.contains(first));
    }
    if !a.disjoint(b) {
        let u = choose|u: int| a.contains(u) && b.contains(u);
        assert(a.contains(u) && b.contains(u));
    }
}

proof fn lemma_strips_by_units(strips: Seq<StripModel>, offset: u32, size: u32)
    requires
        size > 0,
        offset + size <= u32::MAX,
    ensures
        strips_by_overlap(strips, offset, (offset + size) as u32, true) == strips.filter(
            |strip: StripModel|
                !units(offset, size).disjoint(units(strip.chunk_offset, strip.capacity)) || (
                strip.capacity == 0 && offset < strip.chunk_offset < offset + size),
        ),
        strips_by_overlap(strips, offset, (offset + size) as u32, false) == strips.filter(
            |strip: StripModel|
                units(offset, size).disjoint(units(strip.chunk_offset, strip.capacity)) && !(
                strip.capacity == 0 && offset < strip.chunk_offset < offset + size),
        ),
    decreases strips.len(),
{
    reveal(Seq::filter);
    if strips.len() > 0 {
        lemma_strips_by_units(strips.drop_last(), offset, size);
        lemma_overlap_is_units(strips.last(), offset, size);
    }
}

/// A range deletion takes from the chunk exactly the strips that share a unit
/// with the range, besides empty strips that lie within it. The others stay as
/// they are and in their order, and the capacity left is the sum of theirs. What
/// it frees are the segments of the strips that leave.
pub proof fn law_range_deletion_takes_shared_units(chunk: ChunkModel, offset: u32, size: u32)
    ensures
        range_deletion(chunk, offset, size) is Ok <==> size > 0 && chunk.state == ChunkState::Active
            && offset + size <= u32::MAX,
        range_deletion(chunk, offset, size) matches Ok((next, freed)) ==> {
            let leaving = chunk.strips.filter(
                |strip: StripModel|
                    !units(offset, size).disjoint(units(strip.chunk_offset, strip.capacity)) || (
                    strip.capacity == 0 && offset < strip.chunk_offset < offset + size),
            );
            &&& next.strips == chunk.strips.filter(
                |strip: StripModel|
                    units(offset, size).disjoint(units(strip.chunk_offset, strip.capacity)) && !(
                    strip.capacity == 0 && offset < strip.chunk_offset < offset + size),
            )
            &&& freed == all_segments(leaving)
            &&& total_capacity(chunk.strips) <= u32::MAX ==> next.capacity == total_capacity(
                chunk.strips,
            ) - total_capacity(leaving)
            &&& chunk.modify_ts < u64::MAX ==> next.modify_ts == chunk.modify_ts + 1
            &&& next == ChunkModel {
                strips: next.strips,
                capacity: next.capacity,
                modify_ts: next.modify_ts,
                ..chunk
            }
        },
{
    if size > 0 && offset + size <= u32::MAX {
        lemma_strips_by_units(chunk.strips, offset, size);
        lemma_split_capacity(chunk.strips, offset, (offset + size) as u32);
        lemma_capacity_nonnegative(strips_by_overlap(chunk.strips, offset, (offset + size) as u32, true));
        lemma_capacity_nonnegative(strips_by_overlap(chunk.strips, offset, (offset + size) as u32, false));
    }
}

proof fn lemma_split_capacity(strips: Seq<StripModel>, offset: u32, end: u32)
    ensures
        total_capacity(strips) == total_capacity(strips_by_overlap(strips, offset, end, true))
            + total_capacity(strips_by_overlap(strips, offset, end, false)),
    decreases strips.len(),
{
    if strips.len() > 0 {
        lemma_split_capacity(strips.drop_last(), offset, end);
        let grown = strips_by_overlap(
            strips.drop_last(),
            offset,
            end,
            overlaps(strips.last(), offset, end),
        );
        assert(grown.push(strips.last()).drop_last() =~= grown);
    }
}

/// Strips that are placed from a unit on lie one behind the other, the first at
/// that unit, and are otherwise as they were.
pub proof fn law_placed_strips_follow(strips: Seq<StripModel>, base: u32)
    requires
        base + total_capacity(strips) <= u32::MAX,
    ensures
        placed_from(strips, base).len() == strips.len(),
        strips.len() > 0 ==> placed_from(strips, base)[0].chunk_offset == base,
        one_behind_the_other(placed_from(strips, base)),
        forall|i: int|
            0 <= i < strips.len() ==> (#[trigger] placed_from(strips, base)[i]) == (StripModel {
                chunk_offset: placed_from(strips, base)[i].chunk_offset,
                ..strips[i]
            }),
{
    let placed = placed_from(strips, base);
    assert(strips.take(0) =~= Seq::<StripModel>::empty());
    assert forall|i: int| 0 <= i < strips.len() implies (#[trigger] placed[i]).chunk_offset == base
        + total_capacity(strips.take(i)) by {
        lemma_capacity_of_prefix(strips, i);
    }
    assert forall|i: int, j: int| 0 <= i < j < placed.len() && j == i + 1 implies (
    #[trigger] placed[i]).chunk_offset + placed[i].capacity == (#[trigger] placed[j]).chunk_offset by {
        assert(strips.take(i + 1).drop_last() =~= strips.take(i));
        assert(strips.take(i + 1).last() == strips[i]);
        assert(placed[j].chunk_offset == base + total_capacity(strips.take(i + 1)));
    }
}

/// A new chunk is active at its first revision, holds the strips from its start
/// on and nothing else, has nothing acknowledged or closed, and its lease runs
/// from now on where it has a shared writer.
pub proof fn law_new_chunk_holds_its_strips(
    id: ChunkId,
    strips: Seq<StripModel>,
    strip_count: u32,
    chunk_type: ChunkType,
    writer_epoch: u64,
    writer_lease_ms: u64,
    now_ms: u64,
)
    requires
        total_capacity(strips) <= u32::MAX,
    ensures
        ({
            let chunk = new_chunk(
                id,
                strips,
                strip_count,
                chunk_type,
                writer_epoch,
                writer_lease_ms,
                now_ms,
            );
            &&& chunk.id == Some(id)
            &&& chunk.state == ChunkState::Active
            &&& chunk.modify_ts == 1
            &&& chunk.create_ts_ms == now_ms
            &&& chunk.sealed_ts_ms == 0 && chunk.sealed_length == 0
            &&& chunk.chunk_type == chunk_type
            &&& chunk.writer_epoch == writer_epoch
            &&& chunk.acknowledged_cursor == 0
            &&& chunk.closed_strip_sequence is None
            &&& chunk.next_strip_sequence == strip_count
            &&& chunk.cleanup_intents.len() == 0
            &&& chunk.last_strip_replacement is None
            &&& writer_epoch == 0 ==> chunk.writer_lease_deadline_ms == 0
            &&& writer_epoch != 0 && now_ms + writer_lease_ms <= u64::MAX
                ==> chunk.writer_lease_deadline_ms == now_ms + writer_lease_ms
            &&& writer_epoch != 0 && now_ms + writer_lease_ms > u64::MAX
                ==> chunk.writer_lease_deadline_ms == u64::MAX
            &&& chunk.strips.len() == strips.len()
            &&& forall|i: int|
                0 <= i < strips.len() ==> (#[trigger] chunk.strips[i]) == (StripModel {
                    chunk_offset: chunk.strips[i].chunk_offset,
                    ..strips[i]
                })
            &&& one_behind_the_other(chunk.strips)
            &&& strips.len() == 0 ==> chunk.capacity == 0
            &&& strips.len() > 0 ==> chunk.strips[0].chunk_offset == 0 && chunk.capacity
                == chunk.strips.last().chunk_offset + chunk.strips.last().capacity
        }),
{
    law_placed_strips_follow(strips, 0);
    lemma_capacity_nonnegative(strips);
    if strips.len() > 0 {
        lemma_end_of_run(strips, 0);
    }
}

proof fn lemma_end_of_run(strips: Seq<StripModel>, base: u32)
    requires
        strips.len() > 0,
        base + total_capacity(strips) <= u32::MAX,
    ensures
        placed_from(strips, base).last().chunk_offset + strips.last().capacity == base
            + total_capacity(strips),
{
    lemma_capacity_of_prefix(strips, strips.len() - 1);
    assert(strips.take(strips.len() - 1) =~= strips.drop_last());
}

/// An append leaves the strips that are there as they are and puts the new ones
/// behind them, the first at the old capacity. The capacity grows by theirs, the
/// next sequence by their number, the revision by one.
pub proof fn law_append_adds_behind(chunk: ChunkModel, strips: Seq<StripModel>, strip_count: u32)
    requires
        chunk.capacity == total_capacity(chunk.strips),
        chunk.capacity + total_capacity(strips) <= u32::MAX,
        append_start(chunk) + strip_count <= u32::MAX,
    ensures
        ({
            let next = appended(chunk, strips, strip_count);
            let n = chunk.strips.len() as int;
            &&& next.strips.len() == n + strips.len()
            &&& next.strips.take(n) == chunk.strips
            &&& forall|i: int|
                0 <= i < strips.len() ==> (#[trigger] strips[i]) == (StripModel {
                    chunk_offset: strips[i].chunk_offset,
                    ..next.strips[n + i]
                })
            &&& one_behind_the_other(next.strips.skip(n))
            &&& strips.len() > 0 ==> next.strips[n].chunk_offset == chunk.capacity && next.capacity
                == next.strips.last().chunk_offset + next.strips.last().capacity
            &&& strips.len() == 0 ==> next.capacity == chunk.capacity
            &&& chunk.modify_ts < u64::MAX ==> next.modify_ts == chunk.modify_ts + 1
            &&& chunk.next_strip_sequence != 0 ==> next.next_strip_sequence
                == chunk.next_strip_sequence + strip_count
            &&& chunk.next_strip_sequence == 0 && n == 0 ==> next.next_strip_sequence == strip_count
            &&& next == ChunkModel {
                strips: next.strips,
                capacity: next.capacity,
                modify_ts: next.modify_ts,
                next_strip_sequence: next.next_strip_sequence,
                ..chunk
            }
        }),
{
    let next = appended(chunk, strips, strip_count);
    let n = chunk.strips.len() as int;
    let placed = placed_from(strips, chunk.capacity);
    law_placed_strips_follow(strips, chunk.capacity);
    lemma_capacity_nonnegative(strips);
    lemma_capacity_nonnegative(chunk.strips);
    crate::types::lemma_capacity_concat(chunk.strips, placed);
    crate::lifecycle::handler::lemma_placed_total(strips, chunk.capacity);
    assert(next.strips.take(n) =~= chunk.strips);
    assert(next.strips.skip(n) =~= placed);
    assert forall|i: int| 0 <= i < strips.len() implies (#[trigger] strips[i]) == (StripModel {
        chunk_offset: strips[i].chunk_offset,
        ..next.strips[n + i]
    }) by {
        assert(next.strips[n + i] == placed[i]);
    }
    if strips.len() > 0 {
        lemma_end_of_run(strips, chunk.capacity);
        assert(next.strips[n] == placed[0]);
        assert(next.strips.last() == placed.last());
    }
}

proof fn lemma_highest_sequence(strips: Seq<StripModel>)
    ensures
        forall|i: int|
            0 <= i < strips.len() ==> (#[trigger] strips[i]).strip_sequence <= highest_sequence(
                strips,
            ),
        strips.len() > 0 ==> exists|i: int|
            0 <= i < strips.len() && (#[trigger] strips[i]).strip_sequence == highest_sequence(
                strips,
            ),
    decreases strips.len(),
{
    if strips.len() > 0 {
        let front = strips.drop_last();
        lemma_highest_sequence(front);
        assert forall|i: int| 0 <= i < strips.len() implies (#[trigger] strips[i]).strip_sequence
            <= highest_sequence(strips) by {
            if i < front.len() {
                assert(front[i] == strips[i]);
            }
        }
        assert(strips[strips.len() - 1] == strips.last());
        if strips.last().strip_sequence <= highest_sequence(front) && front.len() > 0 {
            let i = choose|i: int|
                0 <= i < front.len() && (#[trigger] front[i]).strip_sequence == highest_sequence(
                    front,
                );
            assert(strips[i] == front[i]);
        }
    }
}

/// The sequences of an append begin behind all that the chunk uses: at the next
/// free one that the record carries, or, where it carries none, directly behind
/// the highest of its strips.
pub proof fn law_append_starts_behind_all(chunk: ChunkModel)
    ensures
        chunk.next_strip_sequence != 0 ==> append_start(chunk) == chunk.next_strip_sequence,
        chunk.next_strip_sequence == 0 && chunk.strips.len() == 0 ==> append_start(chunk) == 0,
        chunk.next_strip_sequence == 0 && (forall|i: int|
            0 <= i < chunk.strips.len() ==> (#[trigger] chunk.strips[i]).strip_sequence < u32::MAX)
            ==> {
            &&& forall|i: int|
                0 <= i < chunk.strips.len() ==> (#[trigger] chunk.strips[i]).strip_sequence
                    < append_start(chunk)
            &&& chunk.strips.len() > 0 ==> exists|i: int|
                0 <= i < chunk.strips.len() && (#[trigger] chunk.strips[i]).strip_sequence + 1
                    == append_start(chunk)
        },
{
    lemma_highest_sequence(chunk.strips);
    if chunk.strips.len() > 0 {
        let i = choose|i: int|
            0 <= i < chunk.strips.len() && (#[trigger] chunk.strips[i]).strip_sequence
                == highest_sequence(chunk.strips);
        assert(chunk.strips[i].strip_sequence == highest_sequence(chunk.strips));
    }
}

/// A request for copies without a number gets the default number, any other gets
/// what it asks for.
pub proof fn law_request_gets_its_layout(data_num: u32, code_num: u32, copy_count: u32)
    ensures
        copy_count > 0 ==> requested_layout(StripType::Mirror, data_num, code_num, copy_count)
            == (StripAllocType::Mirror { copy_count: copy_count as usize }),
        requested_layout(StripType::Mirror, data_num, code_num, 0) == (StripAllocType::Mirror {
            copy_count: DEFAULT_COPY_COUNT as usize,
        }),
        DEFAULT_COPY_COUNT == 3,
        requested_layout(StripType::Ec, data_num, code_num, copy_count) == (StripAllocType::Ec {
            data_num: data_num as usize,
            code_num: code_num as usize,
        }),
{
}

/// A strip has at least one unit. Where the unit is a whole number of KiB and
/// the granularity a multiple of it, the units make up the granularity exactly,
/// and otherwise they stay below it by less than one unit.
pub proof fn law_units_make_up_granularity(write_granularity_kb: u32, unit_size_bytes: u32)
    ensures
        units_for(write_granularity_kb, unit_size_bytes) >= 1,
        unit_size_bytes >= 1024 && write_granularity_kb >= unit_size_bytes / 1024 ==> units_for(
            write_granularity_kb,
            unit_size_bytes,
        ) * (unit_size_bytes / 1024) <= write_granularity_kb < (units_for(
            write_granularity_kb,
            unit_size_bytes,
        ) + 1) * (unit_size_bytes / 1024),
        unit_size_bytes < 1024 && write_granularity_kb > 0 ==> units_for(
            write_granularity_kb,
            unit_size_bytes,
        ) == write_granularity_kb,
        write_granularity_kb < unit_size_bytes / 1024 ==> units_for(
            write_granularity_kb,
            unit_size_bytes,
        ) == 1,
{
    let kb = (unit_size_bytes / 1024) as int;
    let wanted = write_granularity_kb as int;
    if kb > 0 && wanted >= kb {
        vstd::arithmetic::div_mod::lemma_fundamental_div_mod(wanted, kb);
        vstd::arithmetic::div_mod::lemma_mod_bound(wanted, kb);
        let q = wanted / kb;
        assert(q >= 1) by (nonlinear_arith)
            requires
                kb > 0,
                wanted >= kb,
                wanted == kb * q + wanted % kb,
                wanted % kb < kb,
        ;
        assert(q * kb <= wanted < (q + 1) * kb) by (nonlinear_arith)
            requires
                wanted == kb * q + wanted % kb,
                0 <= wanted % kb < kb,
        ;
    } else if kb > 0 {
        vstd::arithmetic::div_mod::lemma_basic_div(wanted, kb);
    }
}

proof fn lemma_reached_is(strips: Seq<StripModel>, cursor: u64, from: int)
    requires
        0 <= from <= strips.len(),
        one_behind_the_other(strips),
        forall|i: int|
            0 <= i < strips.len() ==> (#[trigger] strips[i]).chunk_offset + strips[i].capacity
                <= u32::MAX,
    ensures
        from <= reached(strips, cursor, from) <= strips.len(),
        forall|i: int|
            from <= i < strips.len() ==> (i < reached(strips, cursor, from) <==> (
            #[trigger] strips[i]).chunk_offset * 1024 < cursor),
    decreases strips.len() - from,
{
    if from < strips.len() {
        if strips[from].start_byte() < cursor && strips[from].end_byte() <= cursor {
            lemma_reached_is(strips, cursor, from + 1);
        } else {
            lemma_offsets_ascend(strips, from);
        }
    }
}

proof fn lemma_offsets_ascend(strips: Seq<StripModel>, from: int)
    requires
        0 <= from < strips.len(),
        one_behind_the_other(strips),
    ensures
        forall|i: int|
            from < i < strips.len() ==> (#[trigger] strips[i]).chunk_offset
                >= strips[from].chunk_offset + strips[from].capacity,
    decreases strips.len() - from,
{
    if from + 1 < strips.len() {
        assert(strips[from].chunk_offset + strips[from].capacity == strips[from + 1].chunk_offset);
        lemma_offsets_ascend(strips, from + 1);
    }
}

/// Where a chunk with a shared writer is sealed, a strip is closed exactly where
/// it begins before the acknowledged cursor: now, at the KiB that the cursor
/// covers of it. The last sequence that is closed is that of the last of them. All
/// else stays as it is.
pub proof fn law_closing_covers_what_is_acknowledged(chunk: ChunkModel, now_ms: u64)
    requires
        one_behind_the_other(chunk.strips),
        forall|i: int|
            0 <= i < chunk.strips.len() ==> (#[trigger] chunk.strips[i]).chunk_offset
                + chunk.strips[i].capacity <= u32::MAX,
    ensures
        ({
            let next = acknowledged_closed(chunk, now_ms);
            &&& next.strips.len() == chunk.strips.len()
            &&& forall|i: int|
                0 <= i < chunk.strips.len() ==> {
                    let strip = chunk.strips[i];
                    let start = strip.chunk_offset * 1024;
                    let end = (strip.chunk_offset + strip.capacity) * 1024;
                    let closed = #[trigger] next.strips[i];
                    if chunk.writer_epoch == 0 || chunk.acknowledged_cursor <= start {
                        closed == strip
                    } else {
                        &&& closed.sealed_ts_ms == now_ms
                        &&& chunk.acknowledged_cursor >= end ==> closed.sealed_length
                            == strip.capacity
                        &&& chunk.acknowledged_cursor < end ==> (closed.sealed_length - 1) * 1024
                            < chunk.acknowledged_cursor - start <= closed.sealed_length * 1024
                        &&& closed == StripModel {
                            sealed_ts_ms: closed.sealed_ts_ms,
                            sealed_length: closed.sealed_length,
                            ..strip
                        }
                    }
                }
            &&& forall|i: int|
                0 <= i < chunk.strips.len() && chunk.writer_epoch != 0 && (
                #[trigger] chunk.strips[i]).chunk_offset * 1024 < chunk.acknowledged_cursor && (i
                    == chunk.strips.len() - 1 || chunk.strips[i + 1].chunk_offset * 1024
                    >= chunk.acknowledged_cursor) ==> next.closed_strip_sequence == Some(
                    chunk.strips[i].strip_sequence,
                )
            &&& next == ChunkModel {
                strips: next.strips,
                closed_strip_sequence: next.closed_strip_sequence,
                ..chunk
            }
        }),
{
    if chunk.writer_epoch != 0 && chunk.acknowledged_cursor != 0 {
        lemma_reached_is(chunk.strips, chunk.acknowledged_cursor, 0);
    }
}

proof fn lemma_written_mirrors(strips: Seq<StripModel>, from: int, remaining: u32, now_ms: u64)
    ensures
        written_sealed(strips, from, remaining, now_ms).len() == strips.len(),
        forall|i: int|
            0 <= i < strips.len() && (i < from || !(strips[i].strip matches Some(
                LayoutModel::Ec { .. },
            ))) ==> (#[trigger] written_sealed(strips, from, remaining, now_ms)[i]) == strips[i],
        forall|i: int|
            0 <= i < strips.len() ==> {
                let next = #[trigger] written_sealed(strips, from, remaining, now_ms)[i];
                next == strips[i] || {
                    &&& strips[i].strip matches Some(
                        LayoutModel::Ec { data_num, code_num, segments, .. },
                    )
                    &&& next.sealed_ts_ms == now_ms
                    &&& 0 < next.sealed_length <= strips[i].capacity
                    &&& next == StripModel {
                        sealed_ts_ms: now_ms,
                        sealed_length: next.sealed_length,
                        strip: Some(
                            LayoutModel::Ec {
                                data_num,
                                code_num,
                                ec_state: EcState::Parity,
                                segments,
                            },
                        ),
                        ..strips[i]
                    }
                }
            },
    decreases strips.len() - from,
{
    if 0 <= from < strips.len() {
        let strip = strips[from];
        let written = if remaining <= strip.capacity {
            remaining
        } else {
            strip.capacity
        };
        if written != 0 {
            if strip.strip matches Some(LayoutModel::Ec { .. }) {
                let done = strips.update(
                    from,
                    crate::lifecycle::handler::parity_sealed(strip, written, now_ms),
                );
                lemma_written_mirrors(done, from + 1, (remaining - written) as u32, now_ms);
                let last = written_sealed(strips, from, remaining, now_ms);
                assert forall|i: int| 0 <= i < strips.len() implies {
                    let next = #[trigger] last[i];
                    next == strips[i] || {
                        &&& strips[i].strip matches Some(
                            LayoutModel::Ec { data_num, code_num, segments, .. },
                        )
                        &&& next.sealed_ts_ms == now_ms
                        &&& 0 < next.sealed_length <= strips[i].capacity
                        &&& next == StripModel {
                            sealed_ts_ms: now_ms,
                            sealed_length: next.sealed_length,
                            strip: Some(
                                LayoutModel::Ec {
                                    data_num,
                                    code_num,
                                    ec_state: EcState::Parity,
                                    segments,
                                },
                            ),
                            ..strips[i]
                        }
                    }
                } by {
                    if i == from {
                        assert(last[i] == done[i]);
                    } else {
                        assert(done[i] == strips[i]);
                    }
                }
            } else {
                lemma_written_mirrors(strips, from + 1, remaining, now_ms);
            }
        }
    }
}

proof fn lemma_written_coded(
    strips: Seq<StripModel>,
    from: int,
    remaining: u32,
    now_ms: u64,
    seal_length: u32,
)
    requires
        0 <= from <= strips.len(),
        one_behind_the_other(strips),
        forall|i: int|
            from <= i < strips.len() ==> (#[trigger] strips[i]).capacity > 0 && (
            strips[i].strip matches Some(LayoutModel::Ec { .. })),
        from < strips.len() ==> remaining == (if seal_length > strips[from].chunk_offset {
            seal_length - strips[from].chunk_offset
        } else {
            0
        }),
    ensures
        forall|i: int|
            from <= i < strips.len() ==> {
                let next = #[trigger] written_sealed(strips, from, remaining, now_ms)[i];
                if seal_length <= strips[i].chunk_offset {
                    next == strips[i]
                } else {
                    &&& next.sealed_ts_ms == now_ms
                    &&& next.strip matches Some(LayoutModel::Ec { ec_state: EcState::Parity, .. })
                    &&& next.sealed_length == (if seal_length >= strips[i].chunk_offset
                        + strips[i].capacity {
                        strips[i].capacity as int
                    } else {
                        seal_length - strips[i].chunk_offset
                    })
                }
            },
    decreases strips.len() - from,
{
    if from < strips.len() {
        let strip = strips[from];
        let written = if remaining <= strip.capacity {
            remaining
        } else {
            strip.capacity
        };
        lemma_offsets_ascend(strips, from);
        if written != 0 {
            let done = strips.update(
                from,
                crate::lifecycle::handler::parity_sealed(strip, written, now_ms),
            );
            if from + 1 < strips.len() {
                assert(strips[from].chunk_offset + strips[from].capacity
                    == strips[from + 1].chunk_offset);
            }
            assert forall|i: int, j: int| 0 <= i < j < done.len() && j == i + 1 implies (
            #[trigger] done[i]).chunk_offset + done[i].capacity == (#[trigger] done[j]).chunk_offset by {
                assert(strips[i].chunk_offset + strips[i].capacity == strips[j].chunk_offset);
            }
            lemma_written_mirrors(done, from + 1, (remaining - written) as u32, now_ms);
            lemma_written_coded(
                done,
                from + 1,
                (remaining - written) as u32,
                now_ms,
                seal_length,
            );
            let last = written_sealed(strips, from, remaining, now_ms);
            assert(last[from] == done[from]);
            assert forall|i: int| from <= i < strips.len() implies {
                let next = #[trigger] last[i];
                if seal_length <= strips[i].chunk_offset {
                    next == strips[i]
                } else {
                    &&& next.sealed_ts_ms == now_ms
                    &&& next.strip matches Some(LayoutModel::Ec { ec_state: EcState::Parity, .. })
                    &&& next.sealed_length == (if seal_length >= strips[i].chunk_offset
                        + strips[i].capacity {
                        strips[i].capacity as int
                    } else {
                        seal_length - strips[i].chunk_offset
                    })
                }
            } by {
                if i > from {
                    assert(done[i] == strips[i]);
                }
            }
        }
    }
}

/// A chunk is sealed exactly where it is active and its capacity holds the
/// length. It is then sealed now at that length, one revision on.
pub proof fn law_seal_takes_the_length(chunk: ChunkModel, seal_length: u32, now_ms: u64)
    ensures
        sealed(chunk, seal_length, now_ms) is Ok <==> chunk.state == ChunkState::Active && seal_length
            <= chunk.capacity,
        sealed(chunk, seal_length, now_ms) matches Ok(next) ==> {
            &&& next.state == ChunkState::Sealed
            &&& next.sealed_length == seal_length
            &&& next.sealed_ts_ms == now_ms
            &&& chunk.modify_ts < u64::MAX ==> next.modify_ts == chunk.modify_ts + 1
            &&& next.strips.len() == chunk.strips.len()
            &&& next == ChunkModel {
                state: next.state,
                sealed_length: next.sealed_length,
                sealed_ts_ms: next.sealed_ts_ms,
                modify_ts: next.modify_ts,
                strips: next.strips,
                closed_strip_sequence: next.closed_strip_sequence,
                ..chunk
            }
        },
{
    lemma_written_mirrors(chunk.strips, 0, seal_length, now_ms);
}

/// Sealing a chunk without a shared writer leaves every mirrored strip as it is.
/// Where all its strips are erasure-coded, those that begin before the seal length
/// get their parity and are closed at what the length covers of them, and the
/// others stay as they are.
pub proof fn law_seal_closes_coded_strips(chunk: ChunkModel, seal_length: u32, now_ms: u64)
    requires
        chunk.writer_epoch == 0,
    ensures
        sealed(chunk, seal_length, now_ms) matches Ok(next) ==> {
            &&& next.closed_strip_sequence == chunk.closed_strip_sequence
            &&& forall|i: int|
                0 <= i < chunk.strips.len() && !(chunk.strips[i].strip matches Some(
                    LayoutModel::Ec { .. },
                )) ==> (#[trigger] next.strips[i]) == chunk.strips[i]
            &&& one_behind_the_other(chunk.strips) && (chunk.strips.len() > 0
                ==> chunk.strips[0].chunk_offset == 0) && (forall|i: int|
                0 <= i < chunk.strips.len() ==> (#[trigger] chunk.strips[i]).capacity > 0 && (
                chunk.strips[i].strip matches Some(LayoutModel::Ec { .. }))) ==> forall|i: int|
                0 <= i < chunk.strips.len() ==> {
                    let strip = chunk.strips[i];
                    let closed = #[trigger] next.strips[i];
                    if seal_length <= strip.chunk_offset {
                        closed == strip
                    } else {
                        &&& closed.sealed_ts_ms == now_ms
                        &&& closed.strip matches Some(
                            LayoutModel::Ec { ec_state: EcState::Parity, .. },
                        )
                        &&& closed.sealed_length == (if seal_length >= strip.chunk_offset
                            + strip.capacity {
                            strip.capacity as int
                        } else {
                            seal_length - strip.chunk_offset
                        })
                    }
                }
        },
{
    lemma_written_mirrors(chunk.strips, 0, seal_length, now_ms);
    if one_behind_the_other(chunk.strips) && (chunk.strips.len() > 0
        ==> chunk.strips[0].chunk_offset == 0) && (forall|i: int|
        0 <= i < chunk.strips.len() ==> (#[trigger] chunk.strips[i]).capacity > 0 && (
        chunk.strips[i].strip matches Some(LayoutModel::Ec { .. }))) {
        lemma_written_coded(chunk.strips, 0, seal_length, now_ms, seal_length);
    }
}

/// A chunk is sealed for its writer exactly where it is active, has a shared
/// writer, and that one's lease is over. It is then sealed at the KiB that the
/// acknowledged cursor covers.
pub proof fn law_expired_chunk_is_sealed_at_its_cursor(chunk: ChunkModel, now_ms: u64)
    ensures
        writer_expired(chunk, now_ms) <==> chunk.state == ChunkState::Active && chunk.writer_epoch
            > 0 && now_ms >= chunk.writer_lease_deadline_ms,
        ({
            let next = sealed_at_cursor(chunk, now_ms);
            &&& next.state == ChunkState::Sealed
            &&& next.sealed_ts_ms == now_ms
            &&& chunk.modify_ts < u64::MAX ==> next.modify_ts == chunk.modify_ts + 1
            &&& chunk.acknowledged_cursor <= u32::MAX * 1024 ==> (next.sealed_length - 1) * 1024
                < chunk.acknowledged_cursor <= next.sealed_length * 1024
            &&& next.strips == acknowledged_closed(chunk, now_ms).strips
            &&& next.closed_strip_sequence == acknowledged_closed(
                chunk,
                now_ms,
            ).closed_strip_sequence
            &&& next == ChunkModel {
                state: next.state,
                sealed_ts_ms: next.sealed_ts_ms,
                modify_ts: next.modify_ts,
                sealed_length: next.sealed_length,
                strips: next.strips,
                closed_strip_sequence: next.closed_strip_sequence,
                ..chunk
            }
        }),
{
    let next = sealed_at_cursor(chunk, now_ms);
    assert(next.strips =~= acknowledged_closed(chunk, now_ms).strips);
}

/// Deleting takes an active or a sealed chunk: its tombstone is the record as
/// deleted, one revision on, and what is freed are the segments of all its
/// strips. The last record is the tombstone without strips. A tombstone that still
/// has strips frees their segments; one without is left as it is.
pub proof fn law_deletion_frees_all(chunk: ChunkModel)
    ensures
        chunk.state == ChunkState::Active || chunk.state == ChunkState::Sealed ==> {
            &&& deletion(chunk) matches Ok(DeleteModel::Publish { tombstone, segments, emptied })
            &&& tombstone == ChunkModel {
                state: ChunkState::Deleted,
                modify_ts: tombstone.modify_ts,
                ..chunk
            }
            &&& chunk.modify_ts < u64::MAX ==> tombstone.modify_ts == chunk.modify_ts + 1
            &&& segments == all_segments(chunk.strips)
            &&& emptied == ChunkModel { strips: Seq::empty(), capacity: 0, ..tombstone }
        },
        chunk.state == ChunkState::Deleted && chunk.strips.len() > 0 ==> {
            &&& deletion(chunk) matches Ok(DeleteModel::Free { segments, emptied })
            &&& segments == all_segments(chunk.strips)
            &&& emptied == ChunkModel { strips: Seq::empty(), capacity: 0, ..chunk }
        },
        chunk.state == ChunkState::Deleted && chunk.strips.len() == 0 ==> (deletion(chunk) matches Ok(
            DeleteModel::Done(done),
        ) && done == chunk),
        deletion(chunk) is Err <==> chunk.state == ChunkState::Init,
{
}

/// The strip is sound in itself: it has some capacity that ends within the
/// chunk's range, every copy of a mirror holds all of it and every shard one
/// data-th part, and the segments that it marks are its own.
pub open spec fn sound_strip(strip: StripModel) -> bool {
    &&& strip.capacity > 0
    &&& strip.unit_kb > 0
    &&& strip.chunk_offset + strip.capacity <= u32::MAX
    &&& match strip.strip {
        Some(LayoutModel::Mirror { segments }) => {
            &&& segments.len() > 0
            &&& forall|i: int|
                0 <= i < segments.len() ==> (#[trigger] segments[i]).unit_count * strip.unit_kb
                    == strip.capacity
            &&& forall|i: int|
                0 <= i < strip.unavailable_segments.len() ==> segments.contains(
                    #[trigger] strip.unavailable_segments[i],
                )
        },
        Some(LayoutModel::Ec { data_num, code_num, segments, .. }) => {
            &&& data_num > 0
            &&& code_num > 0
            &&& segments.len() == data_num + code_num
            &&& forall|i: int|
                0 <= i < segments.len() ==> (#[trigger] segments[i]).unit_count * strip.unit_kb
                    * data_num == strip.capacity
            &&& forall|i: int|
                0 <= i < strip.unavailable_segments.len() ==> segments.contains(
                    #[trigger] strip.unavailable_segments[i],
                )
        },
        None => false,
    }
}

/// The numbers of the strip are not at the end of their range.
pub open spec fn countable_strip(strip: StripModel) -> bool {
    &&& strip.capacity < u32::MAX
    &&& match strip.strip {
        Some(LayoutModel::Ec { data_num, code_num, .. }) => data_num + code_num <= u32::MAX,
        _ => true,
    }
}

proof fn lemma_clipped_product(units: u32, kb: u32, data: u32, capacity: u32)
    requires
        data > 0,
        capacity < u32::MAX,
    ensures
        crate::arith::clip_u32(units * kb) == capacity <==> units * kb == capacity,
        crate::arith::clip_u32(crate::arith::clip_u32(units * kb) * data) == capacity <==> units * kb
            * data == capacity,
{
    let product = units * kb;
    assert(product >= 0) by (nonlinear_arith)
        requires
            product == units * kb,
    ;
    if product > u32::MAX {
        assert(product * data > u32::MAX && u32::MAX * data >= u32::MAX) by (nonlinear_arith)
            requires
                product > u32::MAX,
                data > 0,
        ;
    } else {
        assert(product * data >= 0) by (nonlinear_arith)
            requires
                product >= 0,
                data > 0,
        ;
    }
}

proof fn lemma_sound_strip(strip: StripModel, offset: u32)
    requires
        countable_strip(strip),
    ensures
        strip_fault(strip, offset) is None <==> sound_strip(strip) && strip.chunk_offset == offset,
{
    match strip.strip {
        Some(LayoutModel::Mirror { segments }) => {
            assert forall|i: int| 0 <= i < segments.len() implies (crate::arith::clip_u32(
                (#[trigger] segments[i]).unit_count * strip.unit_kb,
            ) == strip.capacity <==> segments[i].unit_count * strip.unit_kb == strip.capacity) by {
                lemma_clipped_product(segments[i].unit_count, strip.unit_kb, 1, strip.capacity);
            }
        },
        Some(LayoutModel::Ec { data_num, segments, .. }) => {
            if data_num > 0 {
                assert forall|i: int| 0 <= i < segments.len() implies (crate::arith::clip_u32(
                    crate::arith::clip_u32((#[trigger] segments[i]).unit_count * strip.unit_kb)
                        * data_num,
                ) == strip.capacity <==> segments[i].unit_count * strip.unit_kb * data_num
                    == strip.capacity) by {
                    lemma_clipped_product(
                        segments[i].unit_count,
                        strip.unit_kb,
                        data_num,
                        strip.capacity,
                    );
                }
            }
        },
        None => {},
    }
}

proof fn lemma_sound_strips(strips: Seq<StripModel>, from: int, offset: u32)
    requires
        0 <= from <= strips.len(),
        forall|i: int| 0 <= i < strips.len() ==> countable_strip(#[trigger] strips[i]),
    ensures
        first_strip_fault(strips, from, offset) is None <==> {
            &&& from < strips.len() ==> strips[from].chunk_offset == offset
            &&& forall|i: int| from <= i < strips.len() ==> sound_strip(#[trigger] strips[i])
            &&& forall|i: int, j: int|
                from <= i < j < strips.len() && j == i + 1 ==> (#[trigger] strips[i]).chunk_offset
                    + strips[i].capacity == (#[trigger] strips[j]).chunk_offset
        },
    decreases strips.len() - from,
{
    if from < strips.len() {
        lemma_sound_strip(strips[from], offset);
        if strip_fault(strips[from], offset) is None {
            lemma_sound_strips(strips, from + 1, (offset + strips[from].capacity) as u32);
        }
    }
}

/// A strip range is replaced exactly where the chunk is active or sealed, the
/// caller knows the current revision and the current strips of the range, and the
/// new strips fill the same units: they begin with the same unit and sequence, lie
/// one behind the other, are sound, have the same capacity together, hold segments
/// of this chunk only, and take their further sequences from the unused ones.
pub proof fn law_replacement_is_accepted(
    chunk: ChunkModel,
    chunk_id: ChunkId,
    expected_modify_ts: u64,
    start_index: u32,
    old_strips: Seq<StripModel>,
    replacement: Seq<StripModel>,
    operation_id: ChunkId,
    not_before_ms: u64,
)
    requires
        forall|i: int| 0 <= i < replacement.len() ==> countable_strip(#[trigger] replacement[i]),
        replacement.len() > 1 ==> replacement.last().strip_sequence < u32::MAX,
        chunk.modify_ts == expected_modify_ts,
        expected_modify_ts < u64::MAX,
    ensures
        replacement_of(
            chunk,
            chunk_id,
            expected_modify_ts,
            start_index,
            old_strips,
            replacement,
            operation_id,
            not_before_ms,
        ) is Ok <==> {
            let end = start_index + old_strips.len();
            &&& old_strips.len() > 0 && replacement.len() > 0
            &&& chunk.state == ChunkState::Active || chunk.state == ChunkState::Sealed
            &&& end <= chunk.strips.len()
            &&& chunk.strips.subrange(start_index as int, end as int) == old_strips
            &&& total_capacity(old_strips) == total_capacity(replacement)
            &&& replacement[0].chunk_offset == old_strips[0].chunk_offset
            &&& replacement[0].strip_sequence == old_strips[0].strip_sequence
            &&& one_behind_the_other(replacement)
            &&& forall|i: int| 0 <= i < replacement.len() ==> sound_strip(#[trigger] replacement[i])
            &&& forall|i: int|
                0 <= i < all_segments(replacement).len() ==> (#[trigger] all_segments(
                    replacement,
                )[i]).owner_chunk == Some(chunk_id) && all_segments(replacement)[i].unit_count > 0
            &&& forall|i: int, j: int|
                0 <= i < replacement.len() && 0 <= j < chunk.strips.len() && !(start_index <= j < end)
                    ==> (#[trigger] replacement[i]).strip_sequence != (
                #[trigger] chunk.strips[j]).strip_sequence
            &&& forall|i: int|
                0 < i < replacement.len() ==> (#[trigger] replacement[i]).strip_sequence
                    >= chunk.next_strip_sequence
            &&& forall|i: int, j: int|
                0 <= i < j < replacement.len() && j == i + 1 ==> (
                #[trigger] replacement[i]).strip_sequence < (
                #[trigger] replacement[j]).strip_sequence
        },
{
    let start = start_index as int;
    let end = start + old_strips.len();
    if old_strips.len() > 0 && replacement.len() > 0 && end <= chunk.strips.len() {
        lemma_sound_strips(replacement, 0, replacement[0].chunk_offset);
        lemma_sequences_are(chunk, start, end, replacement);
    }
}

proof fn lemma_sequences_are(
    chunk: ChunkModel,
    start: int,
    end: int,
    replacement: Seq<StripModel>,
)
    requires
        replacement.len() > 0,
    ensures
        valid_sequences(chunk, start, end, replacement) <==> {
            &&& forall|i: int, j: int|
                0 <= i < replacement.len() && 0 <= j < chunk.strips.len() && !(start <= j < end)
                    ==> (#[trigger] replacement[i]).strip_sequence != (
                #[trigger] chunk.strips[j]).strip_sequence
            &&& forall|i: int|
                0 < i < replacement.len() ==> (#[trigger] replacement[i]).strip_sequence
                    >= chunk.next_strip_sequence
            &&& forall|i: int, j: int|
                0 <= i < j < replacement.len() && j == i + 1 ==> (
                #[trigger] replacement[i]).strip_sequence < (
                #[trigger] replacement[j]).strip_sequence
        },
{
    if valid_sequences(chunk, start, end, replacement) {
        assert forall|i: int, j: int|
            0 <= i < replacement.len() && 0 <= j < chunk.strips.len() && !(start <= j
                < end) implies (#[trigger] replacement[i]).strip_sequence != (
        #[trigger] chunk.strips[j]).strip_sequence by {
            assert(!retained_sequence(chunk.strips, start, end, replacement[i].strip_sequence));
        }
        assert forall|i: int| 0 < i < replacement.len() implies (
        #[trigger] replacement[i]).strip_sequence >= chunk.next_strip_sequence by {
            assert(new_sequence(chunk.next_strip_sequence, replacement, i));
        }
        assert forall|i: int, j: int| 0 <= i < j < replacement.len() && j == i + 1 implies (
        #[trigger] replacement[i]).strip_sequence < (#[trigger] replacement[j]).strip_sequence by {
            assert(new_sequence(chunk.next_strip_sequence, replacement, j));
        }
    }
    if {
        &&& forall|i: int, j: int|
            0 <= i < replacement.len() && 0 <= j < chunk.strips.len() && !(start <= j < end) ==> (
            #[trigger] replacement[i]).strip_sequence != (#[trigger] chunk.strips[j]).strip_sequence
        &&& forall|i: int|
            0 < i < replacement.len() ==> (#[trigger] replacement[i]).strip_sequence
                >= chunk.next_strip_sequence
        &&& forall|i: int, j: int|
            0 <= i < j < replacement.len() && j == i + 1 ==> (
            #[trigger] replacement[i]).strip_sequence < (#[trigger] replacement[j]).strip_sequence
    } {
        assert forall|i: int| 0 < i < replacement.len() implies #[trigger] new_sequence(
            chunk.next_strip_sequence,
            replacement,
            i,
        ) by {
            assert(replacement[i - 1].strip_sequence < replacement[i].strip_sequence);
        }
    }
}

/// A replaced range stands in its place, all other strips stay as they are.
/// Committed are the segments that only the new strips hold, each once. Those that
/// only the replaced strips held are put on the record as retired, each once,
/// under the operation and not to be freed before the given time.
pub proof fn law_replacement_splices(
    chunk: ChunkModel,
    chunk_id: ChunkId,
    expected_modify_ts: u64,
    start_index: u32,
    old_strips: Seq<StripModel>,
    replacement: Seq<StripModel>,
    operation_id: ChunkId,
    not_before_ms: u64,
)
    ensures
        replacement_of(
            chunk,
            chunk_id,
            expected_modify_ts,
            start_index,
            old_strips,
            replacement,
            operation_id,
            not_before_ms,
        ) matches Ok(ReplaceModel::Publish { commit, chunk: next }) ==> {
            let start = start_index as int;
            let end = start + old_strips.len();
            let old_segments = all_segments(old_strips);
            let new_segments = all_segments(replacement);
            &&& chunk.modify_ts == expected_modify_ts
            &&& end <= chunk.strips.len()
            &&& chunk.strips.subrange(start, end) == old_strips
            &&& next.strips == chunk.strips.take(start) + replacement + chunk.strips.skip(end)
            &&& total_capacity(chunk.strips) <= u32::MAX ==> next.capacity == total_capacity(
                chunk.strips,
            )
            &&& chunk.modify_ts < u64::MAX ==> next.modify_ts == chunk.modify_ts + 1
            &&& next.last_strip_replacement == Some(operation_id)
            &&& next.next_strip_sequence == (if replacement.len() == 1 {
                chunk.next_strip_sequence as int
            } else {
                replacement.last().strip_sequence + 1
            })
            &&& commit.no_duplicates()
            &&& forall|s: Segment| #[trigger]
                commit.contains(s) <==> new_segments.contains(s) && !old_segments.contains(s)
            &&& next.cleanup_intents.take(chunk.cleanup_intents.len() as int)
                == chunk.cleanup_intents
            &&& if forall|s: Segment| #[trigger] old_segments.contains(s) ==> new_segments.contains(s) {
                next.cleanup_intents.len() == chunk.cleanup_intents.len()
            } else {
                let intent = next.cleanup_intents.last();
                &&& next.cleanup_intents.len() == chunk.cleanup_intents.len() + 1
                &&& intent.operation_id == Some(operation_id)
                &&& intent.not_before_ms == not_before_ms
                &&& intent.retired_segments.no_duplicates()
                &&& forall|s: Segment| #[trigger]
                    intent.retired_segments.contains(s) <==> old_segments.contains(s)
                        && !new_segments.contains(s)
            }
            &&& next == ChunkModel {
                strips: next.strips,
                capacity: next.capacity,
                modify_ts: next.modify_ts,
                last_strip_replacement: next.last_strip_replacement,
                next_strip_sequence: next.next_strip_sequence,
                cleanup_intents: next.cleanup_intents,
                ..chunk
            }
        },
{
    let start = start_index as int;
    let end = start + old_strips.len();
    let old_segments = all_segments(old_strips);
    let new_segments = all_segments(replacement);
    lemma_distinct_without(new_segments, old_segments);
    lemma_distinct_without(old_segments, new_segments);
    if let Ok(ReplaceModel::Publish { commit, chunk: next }) = replacement_of(
        chunk,
        chunk_id,
        expected_modify_ts,
        start_index,
        old_strips,
        replacement,
        operation_id,
        not_before_ms,
    ) {
        let retired = crate::lifecycle::replace::distinct_without(old_segments, new_segments);
        let a = chunk.strips.take(start);
        let c = chunk.strips.skip(end);
        assert(chunk.strips =~= a + old_strips + c);
        crate::types::lemma_capacity_concat(a, old_strips);
        crate::types::lemma_capacity_concat(a + old_strips, c);
        crate::types::lemma_capacity_concat(a, replacement);
        crate::types::lemma_capacity_concat(a + replacement, c);
        lemma_capacity_nonnegative(chunk.strips);
        assert(next.cleanup_intents.take(chunk.cleanup_intents.len() as int)
            =~= chunk.cleanup_intents);
        if retired.len() == 0 {
            assert forall|s: Segment| #[trigger] old_segments.contains(s) implies new_segments.contains(
                s,
            ) by {
                assert(!retired.contains(s));
            }
        } else {
            assert(retired.contains(retired[0]));
            assert(old_segments.contains(retired[0]) && !new_segments.contains(retired[0]));
        }
    }
}

proof fn lemma_unreferenced_is(segments: Seq<Segment>, current: Seq<Segment>)
    ensures
        unreferenced(segments, current) == segments.filter(|s: Segment| !current.contains(s)),
    decreases segments.len(),
{
    reveal(Seq::filter);
    if segments.len() > 0 {
        lemma_unreferenced_is(segments.drop_last(), current);
    }
}

/// Of the retired segments of a chunk, those of the intents whose time has come
/// are freed, one run for each of them, besides segments that the chunk uses
/// again. The other intents stay on the record, in their order, and nothing else of
/// it changes.
pub proof fn law_due_intents_are_freed(
    chunk: ChunkModel,
    current: Seq<Segment>,
    now_ms: u64,
)
    ensures
        cleaned_chunk(chunk, now_ms) == (ChunkModel {
            cleanup_intents: chunk.cleanup_intents.filter(
                |intent: IntentModel| now_ms < intent.not_before_ms,
            ),
            ..chunk
        }),
        due_frees(chunk.cleanup_intents, current, now_ms) == chunk.cleanup_intents.filter(
            |intent: IntentModel| now_ms >= intent.not_before_ms,
        ).map_values(
            |intent: IntentModel|
                intent.retired_segments.filter(|s: Segment| !current.contains(s)),
        ),
{
    lemma_intents(chunk.cleanup_intents, current, now_ms);
}

proof fn lemma_intents(intents: Seq<IntentModel>, current: Seq<Segment>, now_ms: u64)
    ensures
        pending_intents(intents, now_ms) == intents.filter(
            |intent: IntentModel| now_ms < intent.not_before_ms,
        ),
        due_frees(intents, current, now_ms) == intents.filter(
            |intent: IntentModel| now_ms >= intent.not_before_ms,
        ).map_values(
            |intent: IntentModel|
                intent.retired_segments.filter(|s: Segment| !current.contains(s)),
        ),
    decreases intents.len(),
{
    reveal(Seq::filter);
    let due = |intent: IntentModel| now_ms >= intent.not_before_ms;
    let freed = |intent: IntentModel|
        intent.retired_segments.filter(|s: Segment| !current.contains(s));
    if intents.len() > 0 {
        let front = intents.drop_last();
        lemma_intents(front, current, now_ms);
        lemma_unreferenced_is(intents.last().retired_segments, current);
        if due(intents.last()) {
            assert(front.filter(due).push(intents.last()).map_values(freed) =~= front.filter(
                due,
            ).map_values(freed).push(freed(intents.last())));
        }
        assert(due_frees(intents, current, now_ms) =~= intents.filter(due).map_values(freed));
    } else {
        assert(due_frees(intents, current, now_ms) =~= intents.filter(due).map_values(freed));
    }
}

/// A chunk that was never activated gets all its segments committed and becomes
/// active; a deleted one that still has strips gets all its segments freed and
/// loses the strips; any other needs nothing.
pub proof fn law_interrupted_work_is_finished(step: ReconcileStep, chunk: ChunkModel)
    requires
        is_reconcile_step(step, chunk),
    ensures
        chunk.state == ChunkState::Init ==> (step matches ReconcileStep::Activate {
            segments,
            chunk: next,
        } && segments@ == all_segments(chunk.strips) && next@ == (ChunkModel {
            state: ChunkState::Active,
            ..chunk
        })),
        chunk.state == ChunkState::Deleted && chunk.strips.len() > 0 ==> (
        step matches ReconcileStep::Clear { segments, chunk: next } && segments@ == all_segments(
            chunk.strips,
        ) && next@ == (ChunkModel { strips: Seq::empty(), capacity: 0, ..chunk })),
        step is Nothing <==> chunk.state == ChunkState::Active || chunk.state == ChunkState::Sealed
            || (chunk.state == ChunkState::Deleted && chunk.strips.len() == 0),
{
}

/// A scan goes on behind the last chunk of a full page, and begins anew behind a
/// page that is short or empty.
pub proof fn law_scan_goes_on(current: Option<ChunkId>, chunks: Seq<ChunkModel>, limit: u32)
    ensures
        chunks.len() < limit ==> cursor_after(current, chunks, limit) is None,
        chunks.len() == 0 ==> cursor_after(current, chunks, limit) is None,
        chunks.len() >= limit && chunks.len() > 0 && chunks.last().id is Some ==> cursor_after(
            current,
            chunks,
            limit,
        ) == chunks.last().id,
        chunks.len() >= limit && chunks.len() > 0 && chunks.last().id is None ==> cursor_after(
            current,
            chunks,
            limit,
        ) == current,
{
}

/// The nodes that hold surviving segments are those of the disk-groups that have the
/// disk of one.
pub proof fn law_surviving_nodes_hold_segments(
    groups: Seq<DiskGroupEntry>,
    surviving: Seq<Segment>,
    node: u64,
)
    ensures
        surviving_nodes(groups, surviving).contains(node) <==> exists|g: int, i: int|
            0 <= g < groups.len() && 0 <= i < surviving.len() && (#[trigger] groups[g]).node_id
                == node && (#[trigger] surviving[i]).disk_id is Some
                && groups[g].value.disk_ids@.contains(surviving[i].disk_id->0),
    decreases groups.len(),
{
    let nodes = surviving_nodes(groups, surviving);
    if groups.len() > 0 {
        let front = groups.drop_last();
        let before = surviving_nodes(front, surviving);
        law_surviving_nodes_hold_segments(front, surviving, node);
        let last = groups.len() - 1;
        if nodes.contains(node) {
            let k = choose|k: int| 0 <= k < nodes.len() && nodes[k] == node;
            if k < before.len() {
                assert(before[k] == node);
                let (g, i) = choose|g: int, i: int|
                    0 <= g < front.len() && 0 <= i < surviving.len() && (#[trigger] front[g]).node_id
                        == node && (#[trigger] surviving[i]).disk_id is Some
                        && front[g].value.disk_ids@.contains(surviving[i].disk_id->0);
                assert(groups[g] == front[g]);
                assert(surviving[i].disk_id is Some);
            } else {
                let i = choose|i: int|
                    0 <= i < surviving.len() && ((#[trigger] surviving[i]).disk_id matches Some(disk)
                        && groups.last().value.disk_ids@.contains(disk));
                assert(groups[last].node_id == node && surviving[i].disk_id is Some);
            }
        }
        if exists|g: int, i: int|
            0 <= g < groups.len() && 0 <= i < surviving.len() && (#[trigger] groups[g]).node_id
                == node && (#[trigger] surviving[i]).disk_id is Some
                && groups[g].value.disk_ids@.contains(surviving[i].disk_id->0) {
            let (g, i) = choose|g: int, i: int|
                0 <= g < groups.len() && 0 <= i < surviving.len() && (#[trigger] groups[g]).node_id
                    == node && (#[trigger] surviving[i]).disk_id is Some
                    && groups[g].value.disk_ids@.contains(surviving[i].disk_id->0);
            if g < last {
                assert(front[g].node_id == node && surviving[i].disk_id is Some);
                let k = choose|k: int| 0 <= k < before.len() && before[k] == node;
                assert(nodes[k] == node);
            } else {
                assert(group_holds_any(groups.last(), surviving));
                assert(nodes[before.len() as int] == node);
            }
        }
    }
}

} // verus!
