//! Records as they travel: identities are always present, empty lists and
//! missing numbers have their own forms.
use vstd::prelude::*;
use crate::lifecycle::reservation::StripReservationAction;
use crate::types::{
    copy_bytes, layout_model, strip_models, Chunk, ChunkId, ChunkModel, ChunkState, ChunkStrip,
    ChunkType, DiskId, EcState, EcStrip, FailureDomainPriority, IntentModel, LayoutModel,
    MirrorStrip, Segment, Strip, StripCleanupIntent, StripModel, StripType,
};

verus! {

/// Layout family as sent; a peer may send a number that names none.
#[derive(Debug, Clone, Copy, PartialEq, Eq, Structural)]
pub enum WireStripType {
    Mirror,
    Ec,
    Unknown(i32),
}

/// Use of a chunk as sent.
#[derive(Debug, Clone, Copy, PartialEq, Eq, Structural)]
pub enum WireChunkType {
    Repo,
    Wal,
    BtreePage,
    PageIndex,
    Unknown(i32),
}

/// Parity state as sent.
#[derive(Debug, Clone, Copy, PartialEq, Eq, Structural)]
pub enum WireEcState {
    NoParity,
    Parity,
    Unknown(i32),
}

/// Lifecycle state as sent.
#[derive(Debug, Clone, Copy, PartialEq, Eq, Structural)]
pub enum WireChunkState {
    Init,
    Active,
    Sealed,
    Deleted,
}

/// Reservation action as sent.
#[derive(Debug, Clone, Copy, PartialEq, Eq, Structural)]
pub enum WireAction {
    Consume,
    Confirm,
    Cancel,
    Renew,
    Publish,
    Unknown(i32),
}

/// The layout family that was sent.
pub fn proto_strip_type(sent: WireStripType) -> (r: Option<StripType>)
    ensures
        r == (match sent {
            WireStripType::Mirror => Some(StripType::Mirror),
            WireStripType::Ec => Some(StripType::Ec),
            WireStripType::Unknown(_) => None,
        }),
{
    match sent {
        WireStripType::Mirror => Some(StripType::Mirror),
        WireStripType::Ec => Some(StripType::Ec),
        WireStripType::Unknown(_) => None,
    }
}

/// The use of a chunk that was sent.
pub fn proto_chunk_type(sent: WireChunkType) -> (r: Option<ChunkType>)
    ensures
        r == (match sent {
            WireChunkType::Repo => Some(ChunkType::Repo),
            WireChunkType::Wal => Some(ChunkType::Wal),
            WireChunkType::BtreePage => Some(ChunkType::BtreePage),
            WireChunkType::PageIndex => Some(ChunkType::PageIndex),
            WireChunkType::Unknown(_) => None,
        }),
{
    match sent {
        WireChunkType::Repo => Some(ChunkType::Repo),
        WireChunkType::Wal => Some(ChunkType::Wal),
        WireChunkType::BtreePage => Some(ChunkType::BtreePage),
        WireChunkType::PageIndex => Some(ChunkType::PageIndex),
        WireChunkType::Unknown(_) => None,
    }
}

/// The action that was sent.
pub fn parse_action(sent: WireAction) -> (r: Option<StripReservationAction>)
    ensures
        r == (match sent {
            WireAction::Consume => Some(StripReservationAction::Consume),
            WireAction::Confirm => Some(StripReservationAction::Confirm),
            WireAction::Cancel => Some(StripReservationAction::Cancel),
            WireAction::Renew => Some(StripReservationAction::Renew),
            WireAction::Publish => Some(StripReservationAction::Publish),
            WireAction::Unknown(_) => None,
        }),
{
    match sent {
        WireAction::Consume => Some(StripReservationAction::Consume),
        WireAction::Confirm => Some(StripReservationAction::Confirm),
        WireAction::Cancel => Some(StripReservationAction::Cancel),
        WireAction::Renew => Some(StripReservationAction::Renew),
        WireAction::Publish => Some(StripReservationAction::Publish),
        WireAction::Unknown(_) => None,
    }
}

/// Form of a lifecycle state.
pub open spec fn sent_chunk_state(state: ChunkState) -> WireChunkState {
    match state {
        ChunkState::Init => WireChunkState::Init,
        ChunkState::Active => WireChunkState::Active,
        ChunkState::Sealed => WireChunkState::Sealed,
        ChunkState::Deleted => WireChunkState::Deleted,
    }
}

/// Form of a lifecycle state.
pub fn fb_chunk_state(state: ChunkState) -> (r: WireChunkState)
    ensures
        r == sent_chunk_state(state),
{
    match state {
        ChunkState::Init => WireChunkState::Init,
        ChunkState::Active => WireChunkState::Active,
        ChunkState::Sealed => WireChunkState::Sealed,
        ChunkState::Deleted => WireChunkState::Deleted,
    }
}

/// Form of a chunk's use.
pub open spec fn sent_chunk_type(chunk_type: ChunkType) -> WireChunkType {
    match chunk_type {
        ChunkType::Repo => WireChunkType::Repo,
        ChunkType::Wal => WireChunkType::Wal,
        ChunkType::BtreePage => WireChunkType::BtreePage,
        ChunkType::PageIndex => WireChunkType::PageIndex,
    }
}

/// Form of a chunk's use.
pub fn fb_chunk_type(chunk_type: ChunkType) -> (r: WireChunkType)
    ensures
        r == sent_chunk_type(chunk_type),
{
    match chunk_type {
        ChunkType::Repo => WireChunkType::Repo,
        ChunkType::Wal => WireChunkType::Wal,
        ChunkType::BtreePage => WireChunkType::BtreePage,
        ChunkType::PageIndex => WireChunkType::PageIndex,
    }
}

/// Form of a layout family.
pub open spec fn sent_strip_type(strip_type: StripType) -> WireStripType {
    match strip_type {
        StripType::Mirror => WireStripType::Mirror,
        StripType::Ec => WireStripType::Ec,
    }
}

/// Form of a layout family.
pub fn fb_strip_type(strip_type: StripType) -> (r: WireStripType)
    ensures
        r == sent_strip_type(strip_type),
{
    match strip_type {
        StripType::Mirror => WireStripType::Mirror,
        StripType::Ec => WireStripType::Ec,
    }
}

/// Form of a parity state.
pub open spec fn sent_ec_state(ec_state: EcState) -> WireEcState {
    match ec_state {
        EcState::NoParity => WireEcState::NoParity,
        EcState::Parity => WireEcState::Parity,
    }
}

/// Form of a parity state.
pub fn fb_ec_state(ec_state: EcState) -> (r: WireEcState)
    ensures
        r == sent_ec_state(ec_state),
{
    match ec_state {
        EcState::NoParity => WireEcState::NoParity,
        EcState::Parity => WireEcState::Parity,
    }
}

/// A segment as sent.
#[derive(Debug, Clone, Copy, PartialEq, Eq, Structural)]
pub struct WireSegment {
    pub disk_id: DiskId,
    pub owner_chunk: ChunkId,
    pub unit_offset: u64,
    pub allocation_ts: u64,
    pub zone_index: u32,
    pub unit_count: u32,
}

/// Form of a segment: a missing disk or owner is sent as zero.
pub open spec fn sent_segment(segment: Segment) -> WireSegment {
    WireSegment {
        disk_id: match segment.disk_id {
            Some(id) => id,
            None => DiskId { high: 0, low: 0 },
        },
        owner_chunk: match segment.owner_chunk {
            Some(id) => id,
            None => ChunkId { high: 0, low: 0 },
        },
        unit_offset: segment.unit_offset,
        allocation_ts: segment.allocation_ts,
        zone_index: segment.zone_index,
        unit_count: segment.unit_count,
    }
}

/// Form of a segment.
pub fn build_segment(segment: &Segment) -> (r: WireSegment)
    ensures
        r == sent_segment(*segment),
{
    WireSegment {
        disk_id: match segment.disk_id {
            Some(id) => id,
            None => DiskId { high: 0, low: 0 },
        },
        owner_chunk: match segment.owner_chunk {
            Some(id) => id,
            None => ChunkId { high: 0, low: 0 },
        },
        unit_offset: segment.unit_offset,
        allocation_ts: segment.allocation_ts,
        zone_index: segment.zone_index,
        unit_count: segment.unit_count,
    }
}

/// The segment that was sent.
pub open spec fn received_segment(sent: WireSegment) -> Segment {
    Segment {
        disk_id: Some(sent.disk_id),
        owner_chunk: Some(sent.owner_chunk),
        zone_index: sent.zone_index,
        unit_offset: sent.unit_offset,
        unit_count: sent.unit_count,
        allocation_ts: sent.allocation_ts,
    }
}

/// The segment that was sent.
pub fn parse_segment(sent: &WireSegment) -> (r: Segment)
    ensures
        r == received_segment(*sent),
{
    Segment {
        disk_id: Some(sent.disk_id),
        owner_chunk: Some(sent.owner_chunk),
        zone_index: sent.zone_index,
        unit_offset: sent.unit_offset,
        unit_count: sent.unit_count,
        allocation_ts: sent.allocation_ts,
    }
}

/// Forms of a run of segments.
pub open spec fn sent_segments(segments: Seq<Segment>) -> Seq<WireSegment> {
    Seq::new(segments.len(), |i: int| sent_segment(segments[i]))
}

/// The segments that were sent; a missing list is an empty one.
pub open spec fn received_segments(sent: Option<Seq<WireSegment>>) -> Seq<Segment> {
    match sent {
        Some(list) => Seq::new(list.len(), |i: int| received_segment(list[i])),
        None => Seq::empty(),
    }
}

/// Forms of a run of segments.
pub fn build_segments(segments: &[Segment]) -> (r: Vec<WireSegment>)
    ensures
        r@ == sent_segments(segments@),
{
    let mut out: Vec<WireSegment> = Vec::new();
    let mut i: usize = 0;
    while i < segments.len()
        invariant
            i <= segments.len(),
            out@.len() == i,
            forall|j: int| 0 <= j < i ==> out@[j] == sent_segment(#[trigger] segments@[j]),
        decreases segments.len() - i,
    {
        out.push(build_segment(&segments[i]));
        i = i + 1;
    }
    assert(out@ =~= sent_segments(segments@));
    out
}

/// Model of an optional list.
pub open spec fn list_model<T>(list: Option<Vec<T>>) -> Option<Seq<T>> {
    match list {
        Some(items) => Some(items@),
        None => None,
    }
}

/// The segments that were sent; a missing list is an empty one.
pub fn parse_segments(sent: &Option<Vec<WireSegment>>) -> (r: Vec<Segment>)
    ensures
        r@ == received_segments(list_model(*sent)),
{
    let mut out: Vec<Segment> = Vec::new();
    match sent {
        Some(list) => {
            let mut i: usize = 0;
            while i < list.len()
                invariant
                    i <= list.len(),
                    out@.len() == i,
                    forall|j: int| 0 <= j < i ==> out@[j] == received_segment(#[trigger] list@[j]),
                decreases list.len() - i,
            {
                out.push(parse_segment(&list[i]));
                i = i + 1;
            }
        },
        None => {},
    }
    assert(out@ =~= received_segments(list_model(*sent)));
    out
}

/// A strip layout as sent.
#[derive(Debug)]
pub enum WireBody {
    /// No layout, or one of a form that is not known.
    Missing,
    Mirror { segments: Option<Vec<WireSegment>> },
    Ec { data_num: u32, code_num: u32, ec_state: WireEcState, segments: Option<Vec<WireSegment>> },
}

/// Model of a sent layout.
pub enum BodyModel {
    Missing,
    Mirror { segments: Option<Seq<WireSegment>> },
    Ec { data_num: u32, code_num: u32, ec_state: WireEcState, segments: Option<Seq<WireSegment>> },
}

impl View for WireBody {
    type V = BodyModel;

    open spec fn view(&self) -> BodyModel {
        match self {
            WireBody::Missing => BodyModel::Missing,
            WireBody::Mirror { segments } => BodyModel::Mirror { segments: list_model(*segments) },
            WireBody::Ec { data_num, code_num, ec_state, segments } => BodyModel::Ec {
                data_num: *data_num,
                code_num: *code_num,
                ec_state: *ec_state,
                segments: list_model(*segments),
            },
        }
    }
}

/// Form of a layout.
pub open spec fn sent_body(strip: Option<LayoutModel>) -> BodyModel {
    match strip {
        None => BodyModel::Missing,
        Some(LayoutModel::Mirror { segments }) => BodyModel::Mirror {
            segments: Some(sent_segments(segments)),
        },
        Some(LayoutModel::Ec { data_num, code_num, ec_state, segments }) => BodyModel::Ec {
            data_num,
            code_num,
            ec_state: sent_ec_state(ec_state),
            segments: Some(sent_segments(segments)),
        },
    }
}

/// The layout that was sent.
pub open spec fn received_body(sent: BodyModel) -> Option<LayoutModel> {
    match sent {
        BodyModel::Missing => None,
        BodyModel::Mirror { segments } => Some(
            LayoutModel::Mirror { segments: received_segments(segments) },
        ),
        BodyModel::Ec { data_num, code_num, ec_state, segments } => match ec_state {
            WireEcState::Unknown(_) => None,
            known => Some(
                LayoutModel::Ec {
                    data_num,
                    code_num,
                    ec_state: if known == WireEcState::Parity {
                        EcState::Parity
                    } else {
                        EcState::NoParity
                    },
                    segments: received_segments(segments),
                },
            ),
        },
    }
}

/// Form of a layout.
pub fn build_strip_body(strip: &Option<Strip>) -> (r: WireBody)
    ensures
        r@ == sent_body(layout_model(*strip)),
{
    match strip {
        None => WireBody::Missing,
        Some(Strip::MirrorStrip(mirror)) => WireBody::Mirror {
            segments: Some(build_segments(&mirror.segments)),
        },
        Some(Strip::EcStrip(ec)) => WireBody::Ec {
            data_num: ec.data_num,
            code_num: ec.code_num,
            ec_state: fb_ec_state(ec.ec_state),
            segments: Some(build_segments(&ec.segments)),
        },
    }
}

fn parse_body(sent: &WireBody) -> (r: Option<Strip>)
    ensures
        layout_model(r) == received_body(sent@),
{
    match sent {
        WireBody::Missing => None,
        WireBody::Mirror { segments } => Some(
            Strip::MirrorStrip(MirrorStrip { segments: parse_segments(segments) }),
        ),
        WireBody::Ec { data_num, code_num, ec_state, segments } => {
            let ec_state = match ec_state {
                WireEcState::NoParity => EcState::NoParity,
                WireEcState::Parity => EcState::Parity,
                WireEcState::Unknown(_) => {
                    return None;
                },
            };
            Some(
                Strip::EcStrip(
                    EcStrip {
                        data_num: *data_num,
                        code_num: *code_num,
                        ec_state,
                        segments: parse_segments(segments),
                    },
                ),
            )
        },
    }
}

/// A strip as sent.
#[derive(Debug)]
pub struct WireStrip {
    pub chunk_offset: u32,
    pub strip_sequence: u32,
    pub unit_kb: u32,
    pub capacity: u32,
    pub create_ts_ms: u64,
    pub sealed_ts_ms: u64,
    pub sealed_length: u32,
    pub strip_type: WireStripType,
    pub body: WireBody,
    pub usage_bitmap: Option<Vec<u8>>,
    pub unavailable_segments: Option<Vec<WireSegment>>,
}

/// Model of a sent strip.
pub struct WireStripModel {
    pub chunk_offset: u32,
    pub strip_sequence: u32,
    pub unit_kb: u32,
    pub capacity: u32,
    pub create_ts_ms: u64,
    pub sealed_ts_ms: u64,
    pub sealed_length: u32,
    pub strip_type: WireStripType,
    pub body: BodyModel,
    pub usage_bitmap: Option<Seq<u8>>,
    pub unavailable_segments: Option<Seq<WireSegment>>,
}

impl View for WireStrip {
    type V = WireStripModel;

    open spec fn view(&self) -> WireStripModel {
        WireStripModel {
            chunk_offset: self.chunk_offset,
            strip_sequence: self.strip_sequence,
            unit_kb: self.unit_kb,
            capacity: self.capacity,
            create_ts_ms: self.create_ts_ms,
            sealed_ts_ms: self.sealed_ts_ms,
            sealed_length: self.sealed_length,
            strip_type: self.strip_type,
            body: self.body@,
            usage_bitmap: list_model(self.usage_bitmap),
            unavailable_segments: list_model(self.unavailable_segments),
        }
    }
}

/// A list, or nothing where it is empty.
pub open spec fn if_any<T>(list: Seq<T>) -> Option<Seq<T>> {
    if list.len() == 0 {
        None
    } else {
        Some(list)
    }
}

/// Form of a strip.
pub open spec fn sent_strip(strip: StripModel) -> WireStripModel {
    WireStripModel {
        chunk_offset: strip.chunk_offset,
        strip_sequence: strip.strip_sequence,
        unit_kb: strip.unit_kb,
        capacity: strip.capacity,
        create_ts_ms: strip.create_ts_ms,
        sealed_ts_ms: strip.sealed_ts_ms,
        sealed_length: strip.sealed_length,
        strip_type: sent_strip_type(strip.strip_type),
        body: sent_body(strip.strip),
        usage_bitmap: if_any(strip.usage_bitmap),
        unavailable_segments: if_any(sent_segments(strip.unavailable_segments)),
    }
}

/// Form of a strip.
pub fn build_chunk_strip(strip: &ChunkStrip) -> (r: WireStrip)
    ensures
        r@ == sent_strip(strip@),
{
    let unavailable = build_segments(&strip.unavailable_segments);
    WireStrip {
        chunk_offset: strip.chunk_offset,
        strip_sequence: strip.strip_sequence,
        unit_kb: strip.unit_kb,
        capacity: strip.capacity,
        create_ts_ms: strip.create_ts_ms,
        sealed_ts_ms: strip.sealed_ts_ms,
        sealed_length: strip.sealed_length,
        strip_type: fb_strip_type(strip.strip_type),
        body: build_strip_body(&strip.strip),
        usage_bitmap: if strip.usage_bitmap.len() == 0 {
            None
        } else {
            Some(copy_bytes(&strip.usage_bitmap))
        },
        unavailable_segments: if unavailable.len() == 0 {
            None
        } else {
            Some(unavailable)
        },
    }
}

/// The strip that was sent; none where its family or layout is not known. How
/// the strip is placed is not sent.
pub open spec fn received_strip(sent: WireStripModel) -> Option<StripModel> {
    match sent.strip_type {
        WireStripType::Unknown(_) => None,
        known => match received_body(sent.body) {
            None => None,
            Some(layout) => Some(
                StripModel {
                    chunk_offset: sent.chunk_offset,
                    strip_sequence: sent.strip_sequence,
                    unit_kb: sent.unit_kb,
                    capacity: sent.capacity,
                    create_ts_ms: sent.create_ts_ms,
                    sealed_ts_ms: sent.sealed_ts_ms,
                    sealed_length: sent.sealed_length,
                    strip_type: if known == WireStripType::Ec {
                        StripType::Ec
                    } else {
                        StripType::Mirror
                    },
                    strip: Some(layout),
                    usage_bitmap: match sent.usage_bitmap {
                        Some(bytes) => bytes,
                        None => Seq::empty(),
                    },
                    unavailable_segments: received_segments(sent.unavailable_segments),
                    placement_repair_required: false,
                    placement_assessment: None,
                    placement_priority: FailureDomainPriority::RackFirst,
                },
            ),
        },
    }
}

/// The strip that was sent.
pub fn parse_chunk_strip(sent: &WireStrip) -> (r: Option<ChunkStrip>)
    ensures
        (match r {
            Some(strip) => Some(strip@),
            None => None,
        }) == received_strip(sent@),
{
    let strip_type = match proto_strip_type(sent.strip_type) {
        Some(strip_type) => strip_type,
        None => {
            return None;
        },
    };
    let strip = match parse_body(&sent.body) {
        Some(strip) => strip,
        None => {
            return None;
        },
    };
    let usage_bitmap = match &sent.usage_bitmap {
        Some(bytes) => copy_bytes(bytes),
        None => Vec::new(),
    };
    Some(
        ChunkStrip {
            chunk_offset: sent.chunk_offset,
            strip_sequence: sent.strip_sequence,
            unit_kb: sent.unit_kb,
            capacity: sent.capacity,
            create_ts_ms: sent.create_ts_ms,
            sealed_ts_ms: sent.sealed_ts_ms,
            sealed_length: sent.sealed_length,
            strip_type,
            strip: Some(strip),
            usage_bitmap,
            unavailable_segments: parse_segments(&sent.unavailable_segments),
            placement_repair_required: false,
            placement_assessment: None,
            placement_priority: FailureDomainPriority::RackFirst,
        },
    )
}

/// Every segment names its disk and its owner.
pub open spec fn all_named(segments: Seq<Segment>) -> bool {
    forall|i: int|
        0 <= i < segments.len() ==> (#[trigger] segments[i]).disk_id is Some
            && segments[i].owner_chunk is Some
}

proof fn lemma_segments_return(segments: Seq<Segment>)
    requires
        all_named(segments),
    ensures
        received_segments(Some(sent_segments(segments))) == segments,
{
    assert forall|i: int| 0 <= i < segments.len() implies received_segment(
        sent_segment(#[trigger] segments[i]),
    ) == segments[i] by {}
    assert(received_segments(Some(sent_segments(segments))) =~= segments);
}

/// A strip comes back as it was sent, where it has a layout, its segments name
/// their disk and owner, and nothing is said of its placement.
pub proof fn law_strip_round_trip(strip: StripModel)
    requires
        strip.strip is Some,
        all_named(strip.segments()),
        all_named(strip.unavailable_segments),
        !strip.placement_repair_required,
        strip.placement_assessment is None,
        strip.placement_priority == FailureDomainPriority::RackFirst,
    ensures
        received_strip(sent_strip(strip)) == Some(strip),
{
    lemma_segments_return(strip.segments());
    lemma_segments_return(strip.unavailable_segments);
    let back = received_strip(sent_strip(strip));
    if strip.usage_bitmap.len() == 0 {
        assert(strip.usage_bitmap =~= Seq::<u8>::empty());
    }
    if strip.unavailable_segments.len() == 0 {
        assert(strip.unavailable_segments =~= Seq::<Segment>::empty());
    }
    assert(back->0.unavailable_segments =~= strip.unavailable_segments);
}

/// Segments to be freed as sent.
#[derive(Debug)]
pub struct WireIntent {
    pub operation_id: Option<ChunkId>,
    pub retired_segments: Vec<WireSegment>,
    pub not_before_ms: u64,
}

/// Model of a sent intent.
pub struct WireIntentModel {
    pub operation_id: Option<ChunkId>,
    pub retired_segments: Seq<WireSegment>,
    pub not_before_ms: u64,
}

impl View for WireIntent {
    type V = WireIntentModel;

    open spec fn view(&self) -> WireIntentModel {
        WireIntentModel {
            operation_id: self.operation_id,
            retired_segments: self.retired_segments@,
            not_before_ms: self.not_before_ms,
        }
    }
}

/// Form of an intent.
pub open spec fn sent_intent(intent: IntentModel) -> WireIntentModel {
    WireIntentModel {
        operation_id: intent.operation_id,
        retired_segments: sent_segments(intent.retired_segments),
        not_before_ms: intent.not_before_ms,
    }
}

/// A chunk as sent.
#[derive(Debug)]
pub struct WireChunk {
    pub id: ChunkId,
    pub modify_ts: u64,
    pub state: WireChunkState,
    pub create_ts_ms: u64,
    pub sealed_ts_ms: u64,
    pub capacity: u32,
    pub sealed_length: u32,
    pub strips: Option<Vec<WireStrip>>,
    pub chunk_type: WireChunkType,
    pub writer_epoch: u64,
    pub acknowledged_cursor: u64,
    /// `u32::MAX` where no strip is closed.
    pub closed_strip_sequence: u32,
    pub writer_lease_deadline_ms: u64,
    pub next_strip_sequence: u32,
    pub cleanup_intents: Option<Vec<WireIntent>>,
    pub last_strip_replacement: Option<ChunkId>,
}

/// Model of a sent chunk.
pub struct WireChunkModel {
    pub id: ChunkId,
    pub modify_ts: u64,
    pub state: WireChunkState,
    pub create_ts_ms: u64,
    pub sealed_ts_ms: u64,
    pub capacity: u32,
    pub sealed_length: u32,
    pub strips: Option<Seq<WireStripModel>>,
    pub chunk_type: WireChunkType,
    pub writer_epoch: u64,
    pub acknowledged_cursor: u64,
    pub closed_strip_sequence: u32,
    pub writer_lease_deadline_ms: u64,
    pub next_strip_sequence: u32,
    pub cleanup_intents: Option<Seq<WireIntentModel>>,
    pub last_strip_replacement: Option<ChunkId>,
}

/// Models of a run of sent strips.
pub open spec fn wire_strip_models(strips: Seq<WireStrip>) -> Seq<WireStripModel> {
    Seq::new(strips.len(), |i: int| strips[i]@)
}

/// Model of an optional run of sent strips.
pub open spec fn wire_strips_option(strips: Option<Vec<WireStrip>>) -> Option<Seq<WireStripModel>> {
    match strips {
        Some(list) => Some(wire_strip_models(list@)),
        None => None,
    }
}

/// Model of an optional run of sent intents.
pub open spec fn wire_intents_option(intents: Option<Vec<WireIntent>>) -> Option<Seq<WireIntentModel>> {
    match intents {
        Some(list) => Some(Seq::new(list@.len(), |i: int| list@[i]@)),
        None => None,
    }
}

impl View for WireChunk {
    type V = WireChunkModel;

    open spec fn view(&self) -> WireChunkModel {
        WireChunkModel {
            id: self.id,
            modify_ts: self.modify_ts,
            state: self.state,
            create_ts_ms: self.create_ts_ms,
            sealed_ts_ms: self.sealed_ts_ms,
            capacity: self.capacity,
            sealed_length: self.sealed_length,
            strips: wire_strips_option(self.strips),
            chunk_type: self.chunk_type,
            writer_epoch: self.writer_epoch,
            acknowledged_cursor: self.acknowledged_cursor,
            closed_strip_sequence: self.closed_strip_sequence,
            writer_lease_deadline_ms: self.writer_lease_deadline_ms,
            next_strip_sequence: self.next_strip_sequence,
            cleanup_intents: wire_intents_option(self.cleanup_intents),
            last_strip_replacement: self.last_strip_replacement,
        }
    }
}

/// Forms of a run of strips.
pub open spec fn sent_strips(strips: Seq<StripModel>) -> Seq<WireStripModel> {
    Seq::new(strips.len(), |i: int| sent_strip(strips[i]))
}

/// Forms of a run of intents.
pub open spec fn sent_intents(intents: Seq<IntentModel>) -> Seq<WireIntentModel> {
    Seq::new(intents.len(), |i: int| sent_intent(intents[i]))
}

/// Form of a chunk.
pub open spec fn sent_chunk(chunk: ChunkModel) -> WireChunkModel {
    WireChunkModel {
        id: match chunk.id {
            Some(id) => id,
            None => ChunkId { high: 0, low: 0 },
        },
        modify_ts: chunk.modify_ts,
        state: sent_chunk_state(chunk.state),
        create_ts_ms: chunk.create_ts_ms,
        sealed_ts_ms: chunk.sealed_ts_ms,
        capacity: chunk.capacity,
        sealed_length: chunk.sealed_length,
        strips: if_any(sent_strips(chunk.strips)),
        chunk_type: sent_chunk_type(chunk.chunk_type),
        writer_epoch: chunk.writer_epoch,
        acknowledged_cursor: chunk.acknowledged_cursor,
        closed_strip_sequence: match chunk.closed_strip_sequence {
            Some(sequence) => sequence,
            None => u32::MAX,
        },
        writer_lease_deadline_ms: chunk.writer_lease_deadline_ms,
        next_strip_sequence: chunk.next_strip_sequence,
        cleanup_intents: if_any(sent_intents(chunk.cleanup_intents)),
        last_strip_replacement: chunk.last_strip_replacement,
    }
}

/// Forms of a run of strips.
pub fn build_strips(strips: &[ChunkStrip]) -> (r: Option<Vec<WireStrip>>)
    ensures
        wire_strips_option(r) == if_any(sent_strips(strip_models(strips@))),
{
    let mut out: Vec<WireStrip> = Vec::new();
    let mut i: usize = 0;
    while i < strips.len()
        invariant
            i <= strips.len(),
            out@.len() == i,
            forall|j: int| 0 <= j < i ==> (#[trigger] out@[j])@ == sent_strip(strips@[j]@),
        decreases strips.len() - i,
    {
        out.push(build_chunk_strip(&strips[i]));
        i = i + 1;
    }
    assert(wire_strip_models(out@) =~= sent_strips(strip_models(strips@)));
    if out.len() == 0 {
        None
    } else {
        Some(out)
    }
}

fn build_intents(intents: &[StripCleanupIntent]) -> (r: Option<Vec<WireIntent>>)
    ensures
        wire_intents_option(r) == if_any(sent_intents(crate::types::intent_models(intents@))),
{
    let mut out: Vec<WireIntent> = Vec::new();
    let mut i: usize = 0;
    while i < intents.len()
        invariant
            i <= intents.len(),
            out@.len() == i,
            forall|j: int| 0 <= j < i ==> (#[trigger] out@[j])@ == sent_intent(intents@[j]@),
        decreases intents.len() - i,
    {
        out.push(
            WireIntent {
                operation_id: intents[i].operation_id,
                retired_segments: build_segments(&intents[i].retired_segments),
                not_before_ms: intents[i].not_before_ms,
            },
        );
        i = i + 1;
    }
    assert(Seq::new(out@.len(), |k: int| out@[k]@) =~= sent_intents(
        crate::types::intent_models(intents@),
    ));
    if out.len() == 0 {
        None
    } else {
        Some(out)
    }
}

/// Form of a chunk.
pub fn build_chunk(chunk: &Chunk) -> (r: WireChunk)
    ensures
        r@ == sent_chunk(chunk@),
{
    WireChunk {
        id: match chunk.id {
            Some(id) => id,
            None => ChunkId { high: 0, low: 0 },
        },
        modify_ts: chunk.modify_ts,
        state: fb_chunk_state(chunk.state),
        create_ts_ms: chunk.create_ts_ms,
        sealed_ts_ms: chunk.sealed_ts_ms,
        capacity: chunk.capacity,
        sealed_length: chunk.sealed_length,
        strips: build_strips(&chunk.strips),
        chunk_type: fb_chunk_type(chunk.chunk_type),
        writer_epoch: chunk.writer_epoch,
        acknowledged_cursor: chunk.acknowledged_cursor,
        closed_strip_sequence: match chunk.closed_strip_sequence {
            Some(sequence) => sequence,
            None => u32::MAX,
        },
        writer_lease_deadline_ms: chunk.writer_lease_deadline_ms,
        next_strip_sequence: chunk.next_strip_sequence,
        cleanup_intents: build_intents(&chunk.cleanup_intents),
        last_strip_replacement: chunk.last_strip_replacement,
    }
}

/// A chunk is sent whole: each field with its own value, the strips and intents in
/// order and one for one. Two states, two uses and two families are never sent alike,
/// and no closed strip is told by the highest sequence.
pub proof fn law_chunk_is_sent_whole(chunk: ChunkModel, other: ChunkModel)
    ensures
        ({
            let sent = sent_chunk(chunk);
            &&& chunk.id is Some ==> sent.id == chunk.id->0
            &&& sent.modify_ts == chunk.modify_ts
            &&& sent.create_ts_ms == chunk.create_ts_ms
            &&& sent.sealed_ts_ms == chunk.sealed_ts_ms
            &&& sent.capacity == chunk.capacity
            &&& sent.sealed_length == chunk.sealed_length
            &&& sent.writer_epoch == chunk.writer_epoch
            &&& sent.acknowledged_cursor == chunk.acknowledged_cursor
            &&& sent.writer_lease_deadline_ms == chunk.writer_lease_deadline_ms
            &&& sent.next_strip_sequence == chunk.next_strip_sequence
            &&& sent.last_strip_replacement == chunk.last_strip_replacement
            &&& chunk.closed_strip_sequence is Some ==> sent.closed_strip_sequence
                == chunk.closed_strip_sequence->0
            &&& chunk.closed_strip_sequence is None ==> sent.closed_strip_sequence == u32::MAX
            &&& chunk.strips.len() == 0 <==> sent.strips is None
            &&& sent.strips matches Some(strips) ==> strips.len() == chunk.strips.len() && forall|
                i: int,
            |
                0 <= i < strips.len() ==> (#[trigger] strips[i]).strip_sequence
                    == chunk.strips[i].strip_sequence && strips[i].chunk_offset
                    == chunk.strips[i].chunk_offset && strips[i].capacity
                    == chunk.strips[i].capacity && strips[i].sealed_length
                    == chunk.strips[i].sealed_length
            &&& chunk.cleanup_intents.len() == 0 <==> sent.cleanup_intents is None
            &&& sent.cleanup_intents matches Some(intents) ==> intents.len()
                == chunk.cleanup_intents.len() && forall|i: int|
                0 <= i < intents.len() ==> (#[trigger] intents[i]).operation_id
                    == chunk.cleanup_intents[i].operation_id && intents[i].not_before_ms
                    == chunk.cleanup_intents[i].not_before_ms
        }),
        sent_chunk(chunk).state == sent_chunk(other).state <==> chunk.state == other.state,
        sent_chunk(chunk).chunk_type == sent_chunk(other).chunk_type <==> chunk.chunk_type
            == other.chunk_type,
        chunk.state == ChunkState::Sealed <==> sent_chunk(chunk).state == WireChunkState::Sealed,
        chunk.state == ChunkState::Active <==> sent_chunk(chunk).state == WireChunkState::Active,
        chunk.state == ChunkState::Deleted <==> sent_chunk(chunk).state == WireChunkState::Deleted,
        chunk.chunk_type == ChunkType::Wal <==> sent_chunk(chunk).chunk_type == WireChunkType::Wal,
        chunk.chunk_type == ChunkType::Repo <==> sent_chunk(chunk).chunk_type
            == WireChunkType::Repo,
        chunk.chunk_type == ChunkType::PageIndex <==> sent_chunk(chunk).chunk_type
            == WireChunkType::PageIndex,
{
}

/// A strip is read exactly where its family, its layout and, of a coded one, the state of
/// its parity are known. What is read has the values that were sent, and the missing
/// lists are empty.
pub proof fn law_strips_are_read_as_sent(sent: WireStripModel)
    ensures
        received_strip(sent) is Some <==> (sent.strip_type == WireStripType::Mirror
            || sent.strip_type == WireStripType::Ec) && (sent.body is Mirror || (
        sent.body is Ec && (sent.body->ec_state == WireEcState::Parity || sent.body->ec_state
            == WireEcState::NoParity))),
        received_strip(sent) matches Some(strip) ==> {
            &&& strip.chunk_offset == sent.chunk_offset
            &&& strip.strip_sequence == sent.strip_sequence
            &&& strip.unit_kb == sent.unit_kb
            &&& strip.capacity == sent.capacity
            &&& strip.create_ts_ms == sent.create_ts_ms
            &&& strip.sealed_ts_ms == sent.sealed_ts_ms
            &&& strip.sealed_length == sent.sealed_length
            &&& strip.strip_type == StripType::Ec <==> sent.strip_type == WireStripType::Ec
            &&& sent.usage_bitmap is None ==> strip.usage_bitmap.len() == 0
            &&& sent.usage_bitmap is Some ==> strip.usage_bitmap == sent.usage_bitmap->0
            &&& sent.unavailable_segments is None ==> strip.unavailable_segments.len() == 0
            &&& sent.unavailable_segments matches Some(segments) ==> strip.unavailable_segments.len()
                == segments.len() && forall|i: int|
                0 <= i < segments.len() ==> {
                    let s = #[trigger] strip.unavailable_segments[i];
                    &&& s.disk_id == Some(segments[i].disk_id)
                    &&& s.owner_chunk == Some(segments[i].owner_chunk)
                    &&& s.zone_index == segments[i].zone_index
                    &&& s.unit_offset == segments[i].unit_offset
                    &&& s.unit_count == segments[i].unit_count
                    &&& s.allocation_ts == segments[i].allocation_ts
                }
            &&& sent.body is Mirror <==> strip.strip->0 is Mirror
        },
{
}

} // verus!
