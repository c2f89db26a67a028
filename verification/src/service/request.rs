//! Checks of received requests.
use vstd::prelude::*;
use crate::lifecycle::reservation::StripReservationAction;
use crate::service::wire::{
    parse_action, parse_chunk_strip, parse_segment, parse_segments, proto_chunk_type,
    proto_strip_type, received_segment, received_segments, received_strip, wire_strip_models,
    wire_strips_option, WireAction, WireChunkType, WireSegment, WireStrip, WireStripModel,
    WireStripType,
};
use crate::types::{strip_models, ChunkId, ChunkStrip, ChunkType, Segment, StripModel, StripType};

verus! {

/// What is wrong with a request.
#[derive(Debug, Clone, Copy, PartialEq, Eq, Structural)]
pub enum RequestFault {
    Unreadable,
    UnreadableReserve,
    UnreadableMutation,
    MissingChunkId,
    MissingGroupId,
    MissingOperationId,
    MissingSegment,
    MissingOldSegment,
    MissingStrip,
    InvalidStripType,
    InvalidChunkType,
    InvalidStripBody,
    InvalidReplacementStrip,
    InvalidAction,
}

impl RequestFault {
    /// Text of the fault.
    pub open spec fn spec_message(self) -> Seq<char> {
        match self {
            RequestFault::Unreadable => "invalid request flatbuffer"@,
            RequestFault::UnreadableReserve => "invalid reserve strip group request"@,
            RequestFault::UnreadableMutation => "invalid mutate strip reservation request"@,
            RequestFault::MissingChunkId => "missing chunk_id"@,
            RequestFault::MissingGroupId => "missing group_id"@,
            RequestFault::MissingOperationId => "missing operation_id"@,
            RequestFault::MissingSegment => "missing segment"@,
            RequestFault::MissingOldSegment => "missing old_segment"@,
            RequestFault::MissingStrip => "missing strip"@,
            RequestFault::InvalidStripType => "invalid strip_type"@,
            RequestFault::InvalidChunkType => "invalid chunk_type"@,
            RequestFault::InvalidStripBody => "invalid strip body"@,
            RequestFault::InvalidReplacementStrip => "invalid strip in replacement range"@,
            RequestFault::InvalidAction => "invalid reservation action"@,
        }
    }

    /// Text of the fault.
    pub fn message(self) -> (r: &'static str)
        ensures
            r@ == self.spec_message(),
    {
        match self {
            RequestFault::Unreadable => "invalid request flatbuffer",
            RequestFault::UnreadableReserve => "invalid reserve strip group request",
            RequestFault::UnreadableMutation => "invalid mutate strip reservation request",
            RequestFault::MissingChunkId => "missing chunk_id",
            RequestFault::MissingGroupId => "missing group_id",
            RequestFault::MissingOperationId => "missing operation_id",
            RequestFault::MissingSegment => "missing segment",
            RequestFault::MissingOldSegment => "missing old_segment",
            RequestFault::MissingStrip => "missing strip",
            RequestFault::InvalidStripType => "invalid strip_type",
            RequestFault::InvalidChunkType => "invalid chunk_type",
            RequestFault::InvalidStripBody => "invalid strip body",
            RequestFault::InvalidReplacementStrip => "invalid strip in replacement range",
            RequestFault::InvalidAction => "invalid reservation action",
        }
    }
}

/// The chunk that a request is about.
pub fn require_chunk_id(chunk_id: Option<ChunkId>) -> (r: Result<ChunkId, RequestFault>)
    ensures
        r == (match chunk_id {
            Some(id) => Ok(id),
            None => Err(RequestFault::MissingChunkId),
        }),
{
    match chunk_id {
        Some(id) => Ok(id),
        None => Err(RequestFault::MissingChunkId),
    }
}

/// The closed strip that a request names; `u32::MAX` names none.
pub fn closed_sequence(sent: u32) -> (r: Option<u32>)
    ensures
        r == (if sent == u32::MAX {
            None
        } else {
            Some(sent)
        }),
{
    if sent == u32::MAX {
        None
    } else {
        Some(sent)
    }
}

/// Layout and use that an allocation asks for.
pub open spec fn allocate_fault(strip_type: WireStripType, chunk_type: WireChunkType) -> Option<
    RequestFault,
> {
    if strip_type is Unknown {
        Some(RequestFault::InvalidStripType)
    } else if chunk_type is Unknown {
        Some(RequestFault::InvalidChunkType)
    } else {
        None
    }
}

/// Layout and use that an allocation asks for.
pub fn parse_allocate(strip_type: WireStripType, chunk_type: WireChunkType) -> (r: Result<
    (StripType, ChunkType),
    RequestFault,
>)
    ensures
        match r {
            Ok((layout, usage)) => allocate_fault(strip_type, chunk_type) is None
                && crate::service::wire::sent_strip_type(layout) == strip_type
                && crate::service::wire::sent_chunk_type(usage) == chunk_type,
            Err(fault) => allocate_fault(strip_type, chunk_type) == Some(fault),
        },
{
    let layout = match proto_strip_type(strip_type) {
        Some(layout) => layout,
        None => {
            return Err(RequestFault::InvalidStripType);
        },
    };
    match proto_chunk_type(chunk_type) {
        Some(usage) => Ok((layout, usage)),
        None => Err(RequestFault::InvalidChunkType),
    }
}

/// Chunk and layout of an append.
pub fn parse_append(chunk_id: Option<ChunkId>, strip_type: WireStripType) -> (r: Result<
    (ChunkId, StripType),
    RequestFault,
>)
    ensures
        match r {
            Ok((id, layout)) => chunk_id == Some(id) && crate::service::wire::sent_strip_type(layout)
                == strip_type,
            Err(fault) => if chunk_id is None {
                fault == RequestFault::MissingChunkId
            } else {
                strip_type is Unknown && fault == RequestFault::InvalidStripType
            },
        },
{
    let id = match require_chunk_id(chunk_id) {
        Ok(id) => id,
        Err(fault) => {
            return Err(fault);
        },
    };
    match proto_strip_type(strip_type) {
        Some(layout) => Ok((id, layout)),
        None => Err(RequestFault::InvalidStripType),
    }
}

/// What a strip update asks for.
pub open spec fn updated_strip(chunk_id: Option<ChunkId>, strip: Option<WireStripModel>) -> Result<
    (ChunkId, StripModel),
    RequestFault,
> {
    match chunk_id {
        None => Err(RequestFault::MissingChunkId),
        Some(id) => match strip {
            None => Err(RequestFault::MissingStrip),
            Some(sent) => match received_strip(sent) {
                None => Err(RequestFault::InvalidStripBody),
                Some(strip) => Ok((id, strip)),
            },
        },
    }
}

/// Chunk and strip of a strip update.
pub fn parse_update_strip(chunk_id: Option<ChunkId>, strip: Option<&WireStrip>) -> (r: Result<
    (ChunkId, ChunkStrip),
    RequestFault,
>)
    ensures
        (match r {
            Ok((id, strip)) => Ok::<(ChunkId, StripModel), RequestFault>((id, strip@)),
            Err(fault) => Err(fault),
        }) == updated_strip(
            chunk_id,
            match strip {
                Some(sent) => Some(sent@),
                None => None,
            },
        ),
{
    let id = match require_chunk_id(chunk_id) {
        Ok(id) => id,
        Err(fault) => {
            return Err(fault);
        },
    };
    match strip {
        None => Err(RequestFault::MissingStrip),
        Some(sent) => match parse_chunk_strip(sent) {
            Some(strip) => Ok((id, strip)),
            None => Err(RequestFault::InvalidStripBody),
        },
    }
}

/// Every strip of the list can be read.
pub open spec fn all_readable(sent: Seq<WireStripModel>) -> bool {
    forall|i: int| 0 <= i < sent.len() ==> received_strip(#[trigger] sent[i]) is Some
}

/// The strips of a list that can be read; a missing list is an empty one.
pub open spec fn received_strips(sent: Option<Seq<WireStripModel>>) -> Seq<StripModel> {
    match sent {
        Some(list) => Seq::new(list.len(), |i: int| received_strip(list[i])->0),
        None => Seq::empty(),
    }
}

/// The list is missing or all of it can be read.
pub open spec fn readable_list(sent: Option<Seq<WireStripModel>>) -> bool {
    match sent {
        Some(list) => all_readable(list),
        None => true,
    }
}

fn parse_strips(sent: &Option<Vec<WireStrip>>) -> (r: Option<Vec<ChunkStrip>>)
    ensures
        match r {
            Some(strips) => readable_list(wire_strips_option(*sent)) && strip_models(strips@)
                == received_strips(wire_strips_option(*sent)),
            None => !readable_list(wire_strips_option(*sent)),
        },
{
    let mut out: Vec<ChunkStrip> = Vec::new();
    match sent {
        None => {
            assert(strip_models(out@) =~= Seq::empty());
            Some(out)
        },
        Some(list) => {
            let ghost models = wire_strip_models(list@);
            let mut i: usize = 0;
            while i < list.len()
                invariant
                    i <= list.len(),
                    out@.len() == i,
                    models == wire_strip_models(list@),
                    wire_strips_option(*sent) == Some(models),
                    forall|j: int|
                        0 <= j < i ==> received_strip(#[trigger] models[j]) == Some(out@[j]@),
                decreases list.len() - i,
            {
                assert(models[i as int] == list@[i as int]@);
                match parse_chunk_strip(&list[i]) {
                    Some(strip) => {
                        out.push(strip);
                    },
                    None => {
                        assert(received_strip(models[i as int]) is None);
                        return None;
                    },
                }
                i = i + 1;
            }
            assert(strip_models(out@) =~= received_strips(wire_strips_option(*sent)));
            Some(out)
        },
    }
}

/// What replacing a strip range asks for.
#[derive(Debug)]
pub struct ReplaceRange {
    pub chunk_id: ChunkId,
    pub operation_id: ChunkId,
    pub old_strips: Vec<ChunkStrip>,
    pub replacement: Vec<ChunkStrip>,
}

/// What is wrong with a strip range replacement.
pub open spec fn replace_fault(
    chunk_id: Option<ChunkId>,
    operation_id: Option<ChunkId>,
    old_strips: Option<Seq<WireStripModel>>,
    replacement: Option<Seq<WireStripModel>>,
) -> Option<RequestFault> {
    if chunk_id is None {
        Some(RequestFault::MissingChunkId)
    } else if operation_id is None {
        Some(RequestFault::MissingOperationId)
    } else if !readable_list(old_strips) || !readable_list(replacement) {
        Some(RequestFault::InvalidReplacementStrip)
    } else {
        None
    }
}

/// Chunk, operation and strips of a strip range replacement: a single strip that
/// cannot be read refuses it.
pub fn parse_replace_range(
    chunk_id: Option<ChunkId>,
    operation_id: Option<ChunkId>,
    old_strips: &Option<Vec<WireStrip>>,
    replacement: &Option<Vec<WireStrip>>,
) -> (r: Result<ReplaceRange, RequestFault>)
    ensures
        match r {
            Ok(range) => replace_fault(
                chunk_id,
                operation_id,
                wire_strips_option(*old_strips),
                wire_strips_option(*replacement),
            ) is None && chunk_id == Some(range.chunk_id) && operation_id == Some(
                range.operation_id,
            ) && strip_models(range.old_strips@) == received_strips(wire_strips_option(*old_strips))
                && strip_models(range.replacement@) == received_strips(
                wire_strips_option(*replacement),
            ),
            Err(fault) => replace_fault(
                chunk_id,
                operation_id,
                wire_strips_option(*old_strips),
                wire_strips_option(*replacement),
            ) == Some(fault),
        },
{
    let chunk_id = match require_chunk_id(chunk_id) {
        Ok(id) => id,
        Err(fault) => {
            return Err(fault);
        },
    };
    let operation_id = match operation_id {
        Some(id) => id,
        None => {
            return Err(RequestFault::MissingOperationId);
        },
    };
    match (parse_strips(old_strips), parse_strips(replacement)) {
        (Some(old_strips), Some(replacement)) => Ok(
            ReplaceRange { chunk_id, operation_id, old_strips, replacement },
        ),
        _ => Err(RequestFault::InvalidReplacementStrip),
    }
}

/// Chunk and segment of a request about a segment.
pub fn parse_segment_request(chunk_id: Option<ChunkId>, segment: Option<WireSegment>) -> (r: Result<
    (ChunkId, Segment),
    RequestFault,
>)
    ensures
        r == (match chunk_id {
            None => Err(RequestFault::MissingChunkId),
            Some(id) => match segment {
                None => Err(RequestFault::MissingSegment),
                Some(sent) => Ok((id, received_segment(sent))),
            },
        }),
{
    let id = match require_chunk_id(chunk_id) {
        Ok(id) => id,
        Err(fault) => {
            return Err(fault);
        },
    };
    match segment {
        Some(sent) => Ok((id, parse_segment(&sent))),
        None => Err(RequestFault::MissingSegment),
    }
}

/// What the allocation of a replacement segment asks for.
#[derive(Debug)]
pub struct ReplacementRequest {
    pub chunk_id: ChunkId,
    pub old_segment: Segment,
    pub surviving: Vec<Segment>,
}

/// Chunk, old segment and survivors of the allocation of a replacement segment.
pub fn parse_allocate_replacement(
    chunk_id: Option<ChunkId>,
    old_segment: Option<WireSegment>,
    surviving: &Option<Vec<WireSegment>>,
) -> (r: Result<ReplacementRequest, RequestFault>)
    ensures
        match r {
            Ok(request) => chunk_id == Some(request.chunk_id) && old_segment is Some
                && request.old_segment == received_segment(old_segment->0) && request.surviving@
                == received_segments(crate::service::wire::list_model(*surviving)),
            Err(fault) => if chunk_id is None {
                fault == RequestFault::MissingChunkId
            } else {
                old_segment is None && fault == RequestFault::MissingOldSegment
            },
        },
{
    let chunk_id = match require_chunk_id(chunk_id) {
        Ok(id) => id,
        Err(fault) => {
            return Err(fault);
        },
    };
    match old_segment {
        Some(sent) => Ok(
            ReplacementRequest {
                chunk_id,
                old_segment: parse_segment(&sent),
                surviving: parse_segments(surviving),
            },
        ),
        None => Err(RequestFault::MissingOldSegment),
    }
}

/// Chunk and group of a reservation.
pub fn parse_reserve(chunk_id: Option<ChunkId>, group_id: Option<ChunkId>) -> (r: Result<
    (ChunkId, ChunkId),
    RequestFault,
>)
    ensures
        r == (match chunk_id {
            None => Err(RequestFault::MissingChunkId),
            Some(chunk) => match group_id {
                None => Err(RequestFault::MissingGroupId),
                Some(group) => Ok((chunk, group)),
            },
        }),
{
    let chunk = match require_chunk_id(chunk_id) {
        Ok(id) => id,
        Err(fault) => {
            return Err(fault);
        },
    };
    match group_id {
        Some(group) => Ok((chunk, group)),
        None => Err(RequestFault::MissingGroupId),
    }
}

/// Chunk, group and action of a reservation change.
pub fn parse_mutate(chunk_id: Option<ChunkId>, group_id: Option<ChunkId>, action: WireAction) -> (r:
    Result<(ChunkId, ChunkId, StripReservationAction), RequestFault>)
    ensures
        match r {
            Ok((chunk, group, _)) => chunk_id == Some(chunk) && group_id == Some(group) && !(
            action is Unknown),
            Err(fault) => if chunk_id is None {
                fault == RequestFault::MissingChunkId
            } else if group_id is None {
                fault == RequestFault::MissingGroupId
            } else {
                action is Unknown && fault == RequestFault::InvalidAction
            },
        },
        r matches Ok((_, _, parsed)) ==> match action {
            WireAction::Consume => parsed == StripReservationAction::Consume,
            WireAction::Confirm => parsed == StripReservationAction::Confirm,
            WireAction::Cancel => parsed == StripReservationAction::Cancel,
            WireAction::Renew => parsed == StripReservationAction::Renew,
            WireAction::Publish => parsed == StripReservationAction::Publish,
            WireAction::Unknown(_) => false,
        },
{
    let (chunk, group) = match parse_reserve(chunk_id, group_id) {
        Ok(ids) => ids,
        Err(fault) => {
            return Err(fault);
        },
    };
    match parse_action(action) {
        Some(action) => Ok((chunk, group, action)),
        None => Err(RequestFault::InvalidAction),
    }
}

/// An allocation is refused exactly where its layout or its use is not known, an
/// unknown layout first.
pub proof fn law_allocations_name_known_forms(strip_type: WireStripType, chunk_type: WireChunkType)
    ensures
        allocate_fault(strip_type, chunk_type) is None <==> (strip_type == WireStripType::Mirror
            || strip_type == WireStripType::Ec) && (chunk_type == WireChunkType::Repo || chunk_type
            == WireChunkType::Wal || chunk_type == WireChunkType::BtreePage || chunk_type
            == WireChunkType::PageIndex),
        allocate_fault(strip_type, chunk_type) == Some(RequestFault::InvalidStripType) <==> !(
        strip_type == WireStripType::Mirror || strip_type == WireStripType::Ec),
{
}

/// A strip update is read exactly where it names its chunk and a strip that can be
/// read; a replacement where it names its chunk and operation, and all its strips can be
/// read.
pub proof fn law_requests_are_read_whole(
    chunk_id: Option<ChunkId>,
    operation_id: Option<ChunkId>,
    strip: Option<WireStripModel>,
    old_strips: Seq<WireStripModel>,
    replacement: Seq<WireStripModel>,
)
    ensures
        updated_strip(chunk_id, strip) is Ok <==> chunk_id is Some && strip is Some && (
        received_strip(strip->0) is Some),
        updated_strip(chunk_id, strip) matches Ok((id, read)) ==> Some(id) == chunk_id && Some(read)
            == received_strip(strip->0),
        updated_strip(chunk_id, strip) == Err::<(ChunkId, StripModel), RequestFault>(
            RequestFault::MissingChunkId,
        ) <==> chunk_id is None,
        replace_fault(chunk_id, operation_id, Some(old_strips), Some(replacement)) is None
            <==> chunk_id is Some && operation_id is Some && (forall|i: int|
            0 <= i < old_strips.len() ==> received_strip(#[trigger] old_strips[i]) is Some) && (
        forall|i: int|
            0 <= i < replacement.len() ==> received_strip(#[trigger] replacement[i]) is Some),
        replace_fault(chunk_id, operation_id, Some(old_strips), None) == replace_fault(
            chunk_id,
            operation_id,
            Some(old_strips),
            Some(Seq::empty()),
        ),
        replace_fault(chunk_id, operation_id, Some(old_strips), Some(replacement)) == Some(
            RequestFault::MissingOperationId,
        ) <==> chunk_id is Some && operation_id is None,
        received_strips(None).len() == 0,
        received_strips(Some(replacement)).len() == replacement.len(),
        forall|i: int|
            0 <= i < replacement.len() && received_strip(replacement[i]) is Some ==> Some(
                #[trigger] received_strips(Some(replacement))[i],
            ) == received_strip(replacement[i]),
{
}

} // verus!
