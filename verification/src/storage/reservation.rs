//! Stored reservation groups: operations, conflicts and scans.
use vstd::prelude::*;
use crate::arith::{clip_u64, sat_add_u64};
use crate::lifecycle::reservation::{
    filled, GroupModel, ReservationCode, StripReservationGroup,
};
use crate::storage::keys::{
    chunk_key, chunk_key_bytes, reservation_key, reservation_key_bytes,
};
use crate::storage::{StoreError, StoreErrorModel};
use crate::text::text;
use crate::types::{Chunk, ChunkId, ChunkModel, ChunkStrip, Segment};

verus! {

/// One operation of an atomic batch.
#[derive(Debug)]
pub enum BatchOp {
    Put { key: Vec<u8>, value: Vec<u8> },
    Delete { key: Vec<u8> },
}

/// Model of an operation.
pub enum BatchOpModel {
    Put { key: Seq<u8>, value: Seq<u8> },
    Delete { key: Seq<u8> },
}

impl View for BatchOp {
    type V = BatchOpModel;

    open spec fn view(&self) -> BatchOpModel {
        match self {
            BatchOp::Put { key, value } => BatchOpModel::Put { key: key@, value: value@ },
            BatchOp::Delete { key } => BatchOpModel::Delete { key: key@ },
        }
    }
}

/// Models of operations.
pub open spec fn batch_models(ops: Seq<BatchOp>) -> Seq<BatchOpModel> {
    Seq::new(ops.len(), |i: int| ops[i]@)
}

/// Model of a batch, or why there is none.
pub open spec fn batch_result(r: Result<Vec<BatchOp>, StoreError>) -> Result<
    Seq<BatchOpModel>,
    StoreErrorModel,
> {
    match r {
        Ok(ops) => Ok(batch_models(ops@)),
        Err(error) => Err(error@),
    }
}

/// The batch that stores a chunk and a new reservation group together.
pub fn put_chunk_and_reservation(
    chunk: &Chunk,
    chunk_value: Vec<u8>,
    group: &StripReservationGroup,
    group_value: Vec<u8>,
) -> (r: Result<Vec<BatchOp>, StoreError>)
    ensures
        batch_result(r) == (match (chunk@.id, group@.group_id) {
            (None, _) => Err(StoreErrorModel::Serde("chunk has no id"@)),
            (Some(_), None) => Err(StoreErrorModel::Serde("reservation group has no id"@)),
            (Some(chunk_id), Some(group_id)) => Ok(
                seq![
                    BatchOpModel::Put { key: chunk_key_bytes(chunk_id), value: chunk_value@ },
                    BatchOpModel::Put {
                        key: reservation_key_bytes(chunk_id, group_id),
                        value: group_value@,
                    },
                ],
            ),
        }),
{
    let chunk_id = match chunk.id {
        Some(id) => id,
        None => {
            return Err(StoreError::Serde(text("chunk has no id")));
        },
    };
    let group_id = match group.group_id {
        Some(id) => id,
        None => {
            return Err(StoreError::Serde(text("reservation group has no id")));
        },
    };
    let mut ops: Vec<BatchOp> = Vec::new();
    ops.push(BatchOp::Put { key: chunk_key(&chunk_id), value: chunk_value });
    ops.push(BatchOp::Put { key: reservation_key(&chunk_id, &group_id), value: group_value });
    assert(batch_models(ops@) =~= seq![
        BatchOpModel::Put { key: chunk_key_bytes(chunk_id), value: chunk_value@ },
        BatchOpModel::Put {
            key: reservation_key_bytes(chunk_id, group_id),
            value: group_value@,
        },
    ]);
    Ok(ops)
}

/// The batch that stores a reservation group alone.
pub fn put_reservation_group(group: &StripReservationGroup, group_value: Vec<u8>) -> (r: Result<
    Vec<BatchOp>,
    StoreError,
>)
    ensures
        batch_result(r) == (match (group@.chunk_id, group@.group_id) {
            (None, _) => Err(StoreErrorModel::Serde("reservation group has no chunk id"@)),
            (Some(_), None) => Err(StoreErrorModel::Serde("reservation group has no id"@)),
            (Some(chunk_id), Some(group_id)) => Ok(
                seq![
                    BatchOpModel::Put {
                        key: reservation_key_bytes(chunk_id, group_id),
                        value: group_value@,
                    },
                ],
            ),
        }),
{
    let chunk_id = match group.chunk_id {
        Some(id) => id,
        None => {
            return Err(StoreError::Serde(text("reservation group has no chunk id")));
        },
    };
    let group_id = match group.group_id {
        Some(id) => id,
        None => {
            return Err(StoreError::Serde(text("reservation group has no id")));
        },
    };
    let mut ops: Vec<BatchOp> = Vec::new();
    ops.push(BatchOp::Put { key: reservation_key(&chunk_id, &group_id), value: group_value });
    assert(batch_models(ops@) =~= seq![
        BatchOpModel::Put {
            key: reservation_key_bytes(chunk_id, group_id),
            value: group_value@,
        },
    ]);
    Ok(ops)
}

/// The batch that deletes a reservation group.
pub fn delete_reservation_group(chunk_id: &ChunkId, group_id: &ChunkId) -> (r: Vec<BatchOp>)
    ensures
        batch_models(r@) == seq![
            BatchOpModel::Delete { key: reservation_key_bytes(*chunk_id, *group_id) },
        ],
{
    let mut ops: Vec<BatchOp> = Vec::new();
    ops.push(BatchOp::Delete { key: reservation_key(chunk_id, group_id) });
    assert(batch_models(ops@) =~= seq![
        BatchOpModel::Delete { key: reservation_key_bytes(*chunk_id, *group_id) },
    ]);
    ops
}

/// The batch that stores a chunk and, with it, the changed group, or deletes
/// the group where none is given.
pub fn put_chunk_and_finish_reservation(
    chunk: &Chunk,
    chunk_value: Vec<u8>,
    group_value: Option<Vec<u8>>,
    group_id: &ChunkId,
) -> (r: Result<Vec<BatchOp>, StoreError>)
    ensures
        batch_result(r) == (match chunk@.id {
            None => Err(StoreErrorModel::Serde("chunk has no id"@)),
            Some(chunk_id) => Ok(
                seq![
                    BatchOpModel::Put { key: chunk_key_bytes(chunk_id), value: chunk_value@ },
                    match group_value {
                        Some(value) => BatchOpModel::Put {
                            key: reservation_key_bytes(chunk_id, *group_id),
                            value: value@,
                        },
                        None => BatchOpModel::Delete {
                            key: reservation_key_bytes(chunk_id, *group_id),
                        },
                    },
                ],
            ),
        }),
{
    let chunk_id = match chunk.id {
        Some(id) => id,
        None => {
            return Err(StoreError::Serde(text("chunk has no id")));
        },
    };
    let mut ops: Vec<BatchOp> = Vec::new();
    ops.push(BatchOp::Put { key: chunk_key(&chunk_id), value: chunk_value });
    match group_value {
        Some(value) => {
            ops.push(BatchOp::Put { key: reservation_key(&chunk_id, group_id), value });
        },
        None => {
            ops.push(BatchOp::Delete { key: reservation_key(&chunk_id, group_id) });
        },
    }
    assert(batch_models(ops@) =~= seq![
        BatchOpModel::Put { key: chunk_key_bytes(chunk_id), value: chunk_value@ },
        match group_value {
            Some(value) => BatchOpModel::Put {
                key: reservation_key_bytes(chunk_id, *group_id),
                value: value@,
            },
            None => BatchOpModel::Delete { key: reservation_key_bytes(chunk_id, *group_id) },
        },
    ]);
    Ok(ops)
}

/// What a fenced write has to do, given what is stored.
#[derive(Debug, Clone, Copy, PartialEq, Eq, Structural)]
pub enum FencedWrite {
    /// Write the batch if the record still has this revision; 0 for none.
    Compare(u64),
    /// The record is as it should be.
    Done,
}

/// Decides a write of a chunk that must follow the stored revision: the record
/// is absent, or the chunk is its direct successor, or it is stored already.
pub fn fence_write(found: Option<(Chunk, u64)>, chunk: &Chunk) -> (r: Result<FencedWrite, StoreError>)
    ensures
        (match r {
            Ok(write) => Ok(write),
            Err(error) => Err(error@),
        }) == fenced(
            match found {
                Some((current, revision)) => Some((current@, revision)),
                None => None,
            },
            chunk@,
        ),
        match found {
            None => r == Ok::<FencedWrite, StoreError>(FencedWrite::Compare(0)),
            Some((current, revision)) => if current@ == chunk@ {
                r == Ok::<FencedWrite, StoreError>(FencedWrite::Done)
            } else if chunk@.modify_ts == clip_u64(current@.modify_ts + 1) {
                r == Ok::<FencedWrite, StoreError>(FencedWrite::Compare(revision))
            } else {
                r matches Err(e) && e@ == StoreErrorModel::Conflict
            },
        },
{
    match found {
        None => Ok(FencedWrite::Compare(0)),
        Some((current, revision)) => {
            if current.same(chunk) {
                return Ok(FencedWrite::Done);
            }
            if chunk.modify_ts != sat_add_u64(current.modify_ts, 1) {
                return Err(StoreError::Conflict);
            }
            Ok(FencedWrite::Compare(revision))
        },
    }
}

/// What a fenced write that failed or stayed open comes to, given what is
/// stored now: it succeeded where the record is the chunk.
pub fn settle_fenced_write(found: Option<Chunk>, chunk: &Chunk) -> (r: Result<(), StoreError>)
    ensures
        match r {
            Ok(()) => found matches Some(current) && current@ == chunk@,
            Err(e) => e@ == StoreErrorModel::Conflict && !(found matches Some(current)
                && current@ == chunk@),
        },
{
    match found {
        Some(current) => {
            if current.same(chunk) {
                Ok(())
            } else {
                Err(StoreError::Conflict)
            }
        },
        None => Err(StoreError::Conflict),
    }
}

/// How a record is written over what is stored, with the revision of its key.
pub open spec fn fenced(found: Option<(ChunkModel, u64)>, chunk: ChunkModel) -> Result<
    FencedWrite,
    StoreErrorModel,
> {
    match found {
        None => Ok(FencedWrite::Compare(0)),
        Some((current, revision)) => if current == chunk {
            Ok(FencedWrite::Done)
        } else if chunk.modify_ts == clip_u64(current.modify_ts + 1) {
            Ok(FencedWrite::Compare(revision))
        } else {
            Err(StoreErrorModel::Conflict)
        },
    }
}

/// A record is written only where none is stored, or directly on top of the
/// revision that is stored and against the very key revision that was read. One
/// that is stored already needs no write; a skipped or an older revision is a
/// conflict.
pub proof fn law_writes_follow_the_stored_revision(
    current: ChunkModel,
    revision: u64,
    chunk: ChunkModel,
)
    ensures
        fenced(None, chunk) == Ok::<FencedWrite, StoreErrorModel>(FencedWrite::Compare(0)),
        fenced(Some((current, revision)), current) == Ok::<FencedWrite, StoreErrorModel>(
            FencedWrite::Done,
        ),
        current.modify_ts < u64::MAX && chunk.modify_ts == current.modify_ts + 1 ==> fenced(
            Some((current, revision)),
            chunk,
        ) == Ok::<FencedWrite, StoreErrorModel>(FencedWrite::Compare(revision)),
        chunk != current && chunk.modify_ts <= current.modify_ts && current.modify_ts < u64::MAX
            ==> fenced(Some((current, revision)), chunk) == Err::<FencedWrite, StoreErrorModel>(
            StoreErrorModel::Conflict,
        ),
        chunk.modify_ts > current.modify_ts + 1 ==> fenced(Some((current, revision)), chunk) == Err::<
            FencedWrite,
            StoreErrorModel,
        >(StoreErrorModel::Conflict),
{
}

/// Order of groups: by chunk, then by group; a missing ID counts as zero.
pub open spec fn group_order(group: GroupModel) -> (u64, u64, u64, u64) {
    let chunk = match group.chunk_id {
        Some(id) => id,
        None => ChunkId { high: 0, low: 0 },
    };
    let id = match group.group_id {
        Some(id) => id,
        None => ChunkId { high: 0, low: 0 },
    };
    (chunk.high, chunk.low, id.high, id.low)
}

/// Lexicographic order.
pub open spec fn before(a: (u64, u64, u64, u64), b: (u64, u64, u64, u64)) -> bool {
    a.0 < b.0 || (a.0 == b.0 && (a.1 < b.1 || (a.1 == b.1 && (a.2 < b.2 || (a.2 == b.2 && a.3
        < b.3)))))
}

/// First position from `from` on whose group is not before the key.
pub open spec fn slot_for(groups: Seq<GroupModel>, key: (u64, u64, u64, u64), from: int) -> int
    decreases groups.len() - from,
{
    if from >= groups.len() || !before(group_order(groups[from]), key) {
        from
    } else {
        slot_for(groups, key, from + 1)
    }
}

/// The ordered groups with one more; it takes the place of one with its key.
pub open spec fn with_group(groups: Seq<GroupModel>, group: GroupModel) -> Seq<GroupModel> {
    let at = slot_for(groups, group_order(group), 0);
    if at < groups.len() && group_order(groups[at]) == group_order(group) {
        groups.update(at, group)
    } else {
        groups.insert(at, group)
    }
}

/// The groups that carry both IDs, in order, the last one of each key.
pub open spec fn merged(groups: Seq<GroupModel>) -> Seq<GroupModel>
    decreases groups.len(),
{
    if groups.len() == 0 {
        Seq::empty()
    } else {
        let front = merged(groups.drop_last());
        if groups.last().chunk_id is Some && groups.last().group_id is Some {
            with_group(front, groups.last())
        } else {
            front
        }
    }
}

/// Models of groups.
pub open spec fn group_models(groups: Seq<StripReservationGroup>) -> Seq<GroupModel> {
    Seq::new(groups.len(), |i: int| groups[i]@)
}

fn order_of(group: &StripReservationGroup) -> (r: (u64, u64, u64, u64))
    ensures
        r == group_order(group@),
{
    let chunk = match group.chunk_id {
        Some(id) => id,
        None => ChunkId { high: 0, low: 0 },
    };
    let id = match group.group_id {
        Some(id) => id,
        None => ChunkId { high: 0, low: 0 },
    };
    (chunk.high, chunk.low, id.high, id.low)
}

fn is_before(a: (u64, u64, u64, u64), b: (u64, u64, u64, u64)) -> (r: bool)
    ensures
        r == before(a, b),
{
    if a.0 != b.0 {
        a.0 < b.0
    } else if a.1 != b.1 {
        a.1 < b.1
    } else if a.2 != b.2 {
        a.2 < b.2
    } else {
        a.3 < b.3
    }
}

/// Merges the groups found in all partitions: in order, one of each key, at
/// most `max_keys`.
pub fn merge_reservation_groups(found: Vec<StripReservationGroup>, max_keys: u32) -> (r: Vec<
    StripReservationGroup,
>)
    ensures
        group_models(r@) == (if merged(group_models(found@)).len() <= max_keys {
            merged(group_models(found@))
        } else {
            merged(group_models(found@)).take(max_keys as int)
        }),
{
    let ghost all = found@;
    let ghost models = group_models(all);
    let mut groups: Vec<StripReservationGroup> = Vec::new();
    assert(group_models(groups@) =~= Seq::<GroupModel>::empty());
    assert(models.take(0) =~= Seq::<GroupModel>::empty());
    for group in iter: found.into_iter()
        invariant
            iter.seq() == all,
            models == group_models(all),
            group_models(groups@) == merged(models.take(iter.index() as int)),
    {
        proof {
            let i = iter.index() as int;
            assert(models.take(i + 1).drop_last() =~= models.take(i));
            assert(models.take(i + 1).last() == group@);
        }
        if group.chunk_id.is_some() && group.group_id.is_some() {
            let key = order_of(&group);
            let ghost current = group_models(groups@);
            let ghost model = group@;
            let mut at: usize = 0;
            while at < groups.len() && is_before(order_of(&groups[at]), key)
                invariant
                    at <= groups.len(),
                    current == group_models(groups@),
                    slot_for(current, key, 0) == slot_for(current, key, at as int),
                decreases groups.len() - at,
            {
                assert(current[at as int] == groups@[at as int]@);
                at = at + 1;
            }
            proof {
                if at < groups@.len() {
                    assert(current[at as int] == groups@[at as int]@);
                }
            }
            let ghost old_groups = groups@;
            if at < groups.len() && !is_before(key, order_of(&groups[at])) {
                groups.set(at, group);
                assert(group_models(groups@) =~= current.update(at as int, model));
            } else {
                groups.insert(at, group);
                assert(group_models(groups@) =~= current.insert(at as int, model));
            }
        }
    }
    proof {
        assert(models.take(models.len() as int) =~= models);
    }
    let limit: usize = max_keys as usize;
    if groups.len() > limit {
        let ghost whole = group_models(groups@);
        groups.truncate(limit);
        assert(group_models(groups@) =~= whole.take(limit as int));
    }
    groups
}

/// Consecutive groups ascend.
pub open spec fn ascending(groups: Seq<GroupModel>) -> bool {
    forall|i: int, j: int|
        0 <= i < j < groups.len() ==> before(
            group_order(#[trigger] groups[i]),
            group_order(#[trigger] groups[j]),
        )
}

proof fn lemma_slot_for(groups: Seq<GroupModel>, key: (u64, u64, u64, u64), from: int)
    requires
        0 <= from <= groups.len(),
    ensures
        from <= slot_for(groups, key, from) <= groups.len(),
        forall|i: int|
            from <= i < slot_for(groups, key, from) ==> before(
                group_order(#[trigger] groups[i]),
                key,
            ),
        slot_for(groups, key, from) < groups.len() ==> !before(
            group_order(groups[slot_for(groups, key, from)]),
            key,
        ),
    decreases groups.len() - from,
{
    if from < groups.len() && before(group_order(groups[from]), key) {
        lemma_slot_for(groups, key, from + 1);
    }
}

/// A merged scan lists every group once, in ascending order.
pub proof fn law_merged_groups_ascend(groups: Seq<GroupModel>)
    ensures
        ascending(merged(groups)),
    decreases groups.len(),
{
    if groups.len() > 0 {
        law_merged_groups_ascend(groups.drop_last());
        let front = merged(groups.drop_last());
        let last = groups.last();
        if last.chunk_id is Some && last.group_id is Some {
            let key = group_order(last);
            let at = slot_for(front, key, 0);
            lemma_slot_for(front, key, 0);
            let next = with_group(front, last);
            let replaces = at < front.len() && group_order(front[at]) == key;
            assert forall|i: int, j: int| 0 <= i < j < next.len() implies before(
                group_order(#[trigger] next[i]),
                group_order(#[trigger] next[j]),
            ) by {
                if replaces {
                    assert(group_order(next[i]) == group_order(front[i]));
                    assert(group_order(next[j]) == group_order(front[j]));
                } else {
                    let oi = if i < at { i } else { i - 1 };
                    let oj = if j < at { j } else { j - 1 };
                    if i == at {
                        assert(next[j] == front[oj]);
                        if oj > at {
                            assert(before(group_order(front[at]), group_order(front[oj])));
                        }
                    } else if j == at {
                        assert(next[i] == front[oi]);
                    } else {
                        assert(next[i] == front[oi] && next[j] == front[oj]);
                    }
                }
            }
        }
    }
}

/// A group as records before the planned cursors stored it.
#[derive(Debug)]
pub struct LegacyStripReservationGroup {
    pub group_id: Option<ChunkId>,
    pub chunk_id: Option<ChunkId>,
    pub writer_epoch: u64,
    pub lease_generation: u64,
    pub lease_deadline_ms: u64,
    pub placement_epoch: u64,
    pub strips: Vec<ChunkStrip>,
    pub states: Vec<ReservationCode>,
    pub parity_segments: Vec<Segment>,
    pub preferred_survivors: Vec<u32>,
    pub data_num: u32,
    pub code_num: u32,
}

/// The group of an older record: nothing is planned for its strips.
pub fn upgrade_group(legacy: LegacyStripReservationGroup) -> (r: StripReservationGroup)
    ensures
        r@ == (GroupModel {
            group_id: legacy.group_id,
            chunk_id: legacy.chunk_id,
            writer_epoch: legacy.writer_epoch,
            lease_generation: legacy.lease_generation,
            lease_deadline_ms: legacy.lease_deadline_ms,
            placement_epoch: legacy.placement_epoch,
            strips: crate::types::strip_models(legacy.strips@),
            states: legacy.states@,
            parity_segments: legacy.parity_segments@,
            preferred_survivors: legacy.preferred_survivors@,
            data_num: legacy.data_num,
            code_num: legacy.code_num,
            planned_cursors: Seq::new(legacy.strips@.len(), |i: int| 0u64),
            planned_closed_sequences: Seq::new(legacy.strips@.len(), |i: int| u32::MAX),
        }),
{
    let count: usize = legacy.strips.len();
    StripReservationGroup {
        group_id: legacy.group_id,
        chunk_id: legacy.chunk_id,
        writer_epoch: legacy.writer_epoch,
        lease_generation: legacy.lease_generation,
        lease_deadline_ms: legacy.lease_deadline_ms,
        placement_epoch: legacy.placement_epoch,
        strips: legacy.strips,
        states: legacy.states,
        parity_segments: legacy.parity_segments,
        preferred_survivors: legacy.preferred_survivors,
        data_num: legacy.data_num,
        code_num: legacy.code_num,
        planned_cursors: filled(0u64, count),
        planned_closed_sequences: filled(u32::MAX, count),
    }
}

/// The group of a current record: where it plans nothing, the plans are filled
/// in for all strips.
pub fn complete_group(group: StripReservationGroup) -> (r: StripReservationGroup)
    ensures
        r@ == (GroupModel {
            planned_cursors: if group@.planned_cursors.len() == 0 {
                Seq::new(group@.strips.len(), |i: int| 0u64)
            } else {
                group@.planned_cursors
            },
            planned_closed_sequences: if group@.planned_closed_sequences.len() == 0 {
                Seq::new(group@.strips.len(), |i: int| u32::MAX)
            } else {
                group@.planned_closed_sequences
            },
            ..group@
        }),
{
    let mut next = group;
    let count: usize = next.strips.len();
    if next.planned_cursors.len() == 0 {
        next.planned_cursors = filled(0u64, count);
    }
    if next.planned_closed_sequences.len() == 0 {
        next.planned_closed_sequences = filled(u32::MAX, count);
    }
    next
}

/// The error of a record that is neither a current nor an older one.
pub fn undecodable_group(current_error: &str, legacy_error: &str) -> (r: StoreError)
    ensures
        r@ == StoreErrorModel::Serde(
            "reservation decode failed: current="@ + current_error@ + "; legacy="@ + legacy_error@,
        ),
{
    let mut message = text("reservation decode failed: current=");
    message.append(current_error);
    message.append("; legacy=");
    message.append(legacy_error);
    StoreError::Serde(message)
}

proof fn lemma_with_group(groups: Seq<GroupModel>, group: GroupModel, g: GroupModel)
    requires
        ascending(groups),
    ensures
        with_group(groups, group).contains(group),
        g != group ==> (with_group(groups, group).contains(g) <==> groups.contains(g) && group_order(g)
            != group_order(group)),
{
    let key = group_order(group);
    let at = slot_for(groups, key, 0);
    lemma_slot_for(groups, key, 0);
    let next = with_group(groups, group);
    let replaces = at < groups.len() && group_order(groups[at]) == key;
    assert(next[at] == group);
    if g != group {
        if next.contains(g) {
            let k = choose|k: int| 0 <= k < next.len() && next[k] == g;
            if replaces {
                assert(groups[k] == g);
                if k < at {
                    assert(before(group_order(groups[k]), key));
                } else if k > at {
                    assert(before(group_order(groups[at]), group_order(groups[k])));
                }
            } else {
                let m = if k < at { k } else { k - 1 };
                assert(groups[m] == g);
                if m >= at {
                    if m > at {
                        assert(before(group_order(groups[at]), group_order(groups[m])));
                    }
                }
            }
        }
        if groups.contains(g) && group_order(g) != key {
            let k = choose|k: int| 0 <= k < groups.len() && groups[k] == g;
            if replaces {
                assert(next[k] == g);
            } else if k < at {
                assert(next[k] == g);
            } else {
                assert(next[k + 1] == g);
            }
        }
    }
}

proof fn lemma_merged_contains(groups: Seq<GroupModel>, g: GroupModel)
    ensures
        merged(groups).contains(g) <==> exists|i: int|
            0 <= i < groups.len() && (#[trigger] groups[i]) == g && g.chunk_id is Some
                && g.group_id is Some && forall|j: int|
                i < j < groups.len() && (#[trigger] groups[j]).chunk_id is Some
                    && groups[j].group_id is Some ==> group_order(groups[j]) != group_order(g)
                    || groups[j] == g,
    decreases groups.len(),
{
    if groups.len() > 0 {
        let front = groups.drop_last();
        let n = groups.len() - 1;
        let last = groups.last();
        lemma_merged_contains(front, g);
        law_merged_groups_ascend(front);
        assert(groups[n] == last);
        let named = last.chunk_id is Some && last.group_id is Some;
        if named {
            lemma_with_group(merged(front), last, g);
        }
        if merged(groups).contains(g) {
            if named && g == last {
                assert(groups[n] == g);
            } else {
                let i = choose|i: int|
                    0 <= i < front.len() && (#[trigger] front[i]) == g && g.chunk_id is Some
                        && g.group_id is Some && forall|j: int|
                        i < j < front.len() && (#[trigger] front[j]).chunk_id is Some
                            && front[j].group_id is Some ==> group_order(front[j]) != group_order(g)
                            || front[j] == g;
                assert(groups[i] == g);
                assert forall|j: int|
                    i < j < groups.len() && (#[trigger] groups[j]).chunk_id is Some
                        && groups[j].group_id is Some implies group_order(groups[j]) != group_order(g)
                    || groups[j] == g by {
                    if j < n {
                        assert(front[j] == groups[j]);
                    }
                }
            }
        }
        if exists|i: int|
            0 <= i < groups.len() && (#[trigger] groups[i]) == g && g.chunk_id is Some
                && g.group_id is Some && forall|j: int|
                i < j < groups.len() && (#[trigger] groups[j]).chunk_id is Some
                    && groups[j].group_id is Some ==> group_order(groups[j]) != group_order(g)
                    || groups[j] == g {
            let i = choose|i: int|
                0 <= i < groups.len() && (#[trigger] groups[i]) == g && g.chunk_id is Some
                    && g.group_id is Some && forall|j: int|
                    i < j < groups.len() && (#[trigger] groups[j]).chunk_id is Some
                        && groups[j].group_id is Some ==> group_order(groups[j]) != group_order(g)
                        || groups[j] == g;
            if i < n {
                assert(front[i] == g);
                assert forall|j: int|
                    i < j < front.len() && (#[trigger] front[j]).chunk_id is Some
                        && front[j].group_id is Some implies group_order(front[j]) != group_order(g)
                    || front[j] == g by {
                    assert(front[j] == groups[j]);
                }
                assert(merged(front).contains(g));
                if named && g != last {
                    assert(group_order(groups[n]) != group_order(g));
                }
            }
        }
    }
}

/// A merged scan holds exactly the groups that name their chunk and themselves,
/// each as it was found last.
pub proof fn law_merged_groups_are_the_latest(groups: Seq<GroupModel>, g: GroupModel)
    ensures
        merged(groups).contains(g) <==> exists|i: int|
            0 <= i < groups.len() && (#[trigger] groups[i]) == g && g.chunk_id is Some
                && g.group_id is Some && forall|j: int|
                i < j < groups.len() && (#[trigger] groups[j]).chunk_id == g.chunk_id
                    && groups[j].group_id == g.group_id ==> groups[j] == g,
{
    lemma_merged_contains(groups, g);
    if merged(groups).contains(g) {
        let i = choose|i: int|
            0 <= i < groups.len() && (#[trigger] groups[i]) == g && g.chunk_id is Some
                && g.group_id is Some && forall|j: int|
                i < j < groups.len() && (#[trigger] groups[j]).chunk_id is Some
                    && groups[j].group_id is Some ==> group_order(groups[j]) != group_order(g)
                    || groups[j] == g;
        assert(groups[i] == g);
    }
    if exists|i: int|
        0 <= i < groups.len() && (#[trigger] groups[i]) == g && g.chunk_id is Some
            && g.group_id is Some && forall|j: int|
            i < j < groups.len() && (#[trigger] groups[j]).chunk_id == g.chunk_id
                && groups[j].group_id == g.group_id ==> groups[j] == g {
        let i = choose|i: int|
            0 <= i < groups.len() && (#[trigger] groups[i]) == g && g.chunk_id is Some
                && g.group_id is Some && forall|j: int|
                i < j < groups.len() && (#[trigger] groups[j]).chunk_id == g.chunk_id
                    && groups[j].group_id == g.group_id ==> groups[j] == g;
        assert forall|j: int|
            i < j < groups.len() && (#[trigger] groups[j]).chunk_id is Some
                && groups[j].group_id is Some implies group_order(groups[j]) != group_order(g)
            || groups[j] == g by {
            if group_order(groups[j]) == group_order(g) {
                assert(groups[j].chunk_id->0 == g.chunk_id->0);
                assert(groups[j].group_id->0 == g.group_id->0);
            }
        }
        assert(groups[i] == g);
    }
}

} // verus!
