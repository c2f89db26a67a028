//! Chunk records, their strips and segments, and the mathematical model of each.
//!
//! A record that holds vectors has a model: the same fields with sequences in
//! place of vectors. Contracts speak of models.
use vstd::prelude::*;

verus! {

/// Identity of a chunk, a task, an operation or a reservation group.
#[derive(Debug, Clone, Copy, PartialEq, Eq, Hash, Structural)]
pub struct ChunkId {
    pub high: u64,
    pub low: u64,
}

/// Identity of a physical disk.
#[derive(Debug, Clone, Copy, PartialEq, Eq, Hash, Structural)]
pub struct DiskId {
    pub high: u64,
    pub low: u64,
}

/// One allocated extent on a disk.
#[derive(Debug, Clone, Copy, PartialEq, Eq, Hash, Structural)]
pub struct Segment {
    pub disk_id: Option<DiskId>,
    pub owner_chunk: Option<ChunkId>,
    pub zone_index: u32,
    pub unit_offset: u64,
    pub unit_count: u32,
    pub allocation_ts: u64,
}

/// Layout family of a strip.
#[derive(Debug, Clone, Copy, PartialEq, Eq, Structural)]
pub enum StripType {
    Mirror,
    Ec,
}

/// Whether the parity shards of an erasure-coded strip are written.
#[derive(Debug, Clone, Copy, PartialEq, Eq, Structural)]
pub enum EcState {
    NoParity,
    Parity,
}

/// What a chunk is used for.
#[derive(Debug, Clone, Copy, PartialEq, Eq, Structural)]
pub enum ChunkType {
    Repo,
    Wal,
    BtreePage,
    PageIndex,
}

/// Lifecycle state of a chunk: `Init -> Active -> Sealed -> Deleted`.
#[derive(Debug, Clone, Copy, PartialEq, Eq, Structural)]
pub enum ChunkState {
    Init,
    Active,
    Sealed,
    Deleted,
}

/// Lexicographic failure-domain priority for new placement decisions.
#[derive(Debug, Clone, Copy, PartialEq, Eq, Structural)]
pub enum FailureDomainPriority {
    /// Protect and balance racks before considering nodes within them.
    RackFirst,
    /// Protect and balance nodes before using rack diversity as a tie-breaker.
    NodeFirst,
}

impl Default for FailureDomainPriority {
    fn default() -> (r: Self)
        ensures
            r == FailureDomainPriority::RackFirst,
    {
        FailureDomainPriority::RackFirst
    }
}

/// How well the fragments of a strip are spread over failure domains.
#[derive(Debug, Clone, Copy, PartialEq, Eq, Structural)]
pub struct PlacementAssessment {
    pub rack_protected: bool,
    pub node_protected: bool,
    pub disk_protected: bool,
    pub max_fragments_per_rack: u32,
    pub max_fragments_per_node: u32,
    pub max_fragments_per_disk: u32,
    pub usage_fresh: bool,
}

impl PlacementAssessment {
    /// Every failure domain is within its loss budget.
    pub open spec fn all_protected(self) -> bool {
        self.rack_protected && self.node_protected && self.disk_protected
    }
}

/// Equal copies of the same data.
#[derive(Debug, PartialEq, Eq)]
pub struct MirrorStrip {
    pub segments: Vec<Segment>,
}

/// Data shards followed by parity shards.
#[derive(Debug, PartialEq, Eq)]
pub struct EcStrip {
    pub data_num: u32,
    pub code_num: u32,
    pub ec_state: EcState,
    pub segments: Vec<Segment>,
}

/// Physical layout of a strip.
#[derive(Debug, PartialEq, Eq)]
pub enum Strip {
    MirrorStrip(MirrorStrip),
    EcStrip(EcStrip),
}

/// Model of a strip layout.
pub enum LayoutModel {
    Mirror { segments: Seq<Segment> },
    Ec { data_num: u32, code_num: u32, ec_state: EcState, segments: Seq<Segment> },
}

impl LayoutModel {
    /// All segments of the layout.
    pub open spec fn segments(self) -> Seq<Segment> {
        match self {
            LayoutModel::Mirror { segments } => segments,
            LayoutModel::Ec { segments, .. } => segments,
        }
    }

    /// The same layout over other segments.
    pub open spec fn with_segments(self, segments: Seq<Segment>) -> LayoutModel {
        match self {
            LayoutModel::Mirror { .. } => LayoutModel::Mirror { segments },
            LayoutModel::Ec { data_num, code_num, ec_state, .. } => LayoutModel::Ec {
                data_num,
                code_num,
                ec_state,
                segments,
            },
        }
    }
}

impl View for Strip {
    type V = LayoutModel;

    open spec fn view(&self) -> LayoutModel {
        match self {
            Strip::MirrorStrip(m) => LayoutModel::Mirror { segments: m.segments@ },
            Strip::EcStrip(e) => LayoutModel::Ec {
                data_num: e.data_num,
                code_num: e.code_num,
                ec_state: e.ec_state,
                segments: e.segments@,
            },
        }
    }
}

/// A contiguous part of a chunk with one physical layout. Offsets, lengths and
/// capacities are in KiB.
#[derive(Debug, PartialEq, Eq)]
pub struct ChunkStrip {
    pub chunk_offset: u32,
    pub strip_sequence: u32,
    pub unit_kb: u32,
    pub capacity: u32,
    pub create_ts_ms: u64,
    pub sealed_ts_ms: u64,
    pub sealed_length: u32,
    pub strip_type: StripType,
    pub strip: Option<Strip>,
    pub usage_bitmap: Vec<u8>,
    pub unavailable_segments: Vec<Segment>,
    pub placement_repair_required: bool,
    pub placement_assessment: Option<PlacementAssessment>,
    pub placement_priority: FailureDomainPriority,
}

/// Model of a strip.
pub struct StripModel {
    pub chunk_offset: u32,
    pub strip_sequence: u32,
    pub unit_kb: u32,
    pub capacity: u32,
    pub create_ts_ms: u64,
    pub sealed_ts_ms: u64,
    pub sealed_length: u32,
    pub strip_type: StripType,
    pub strip: Option<LayoutModel>,
    pub usage_bitmap: Seq<u8>,
    pub unavailable_segments: Seq<Segment>,
    pub placement_repair_required: bool,
    pub placement_assessment: Option<PlacementAssessment>,
    pub placement_priority: FailureDomainPriority,
}

impl StripModel {
    /// All segments of the strip, none where it has no layout.
    pub open spec fn segments(self) -> Seq<Segment> {
        match self.strip {
            Some(layout) => layout.segments(),
            None => Seq::empty(),
        }
    }

    /// The copies of a mirrored strip, none for any other layout.
    pub open spec fn mirror_segments(self) -> Seq<Segment> {
        match self.strip {
            Some(LayoutModel::Mirror { segments }) => segments,
            _ => Seq::empty(),
        }
    }

    /// First byte of the strip within its chunk.
    pub open spec fn start_byte(self) -> int {
        self.chunk_offset * 1024
    }

    /// First byte behind the strip, its end clipped to the KiB range of `u32`.
    pub open spec fn end_byte(self) -> int {
        crate::arith::clip_u32(self.chunk_offset + self.capacity) * 1024
    }
}

/// Model of an optional layout.
pub open spec fn layout_model(strip: Option<Strip>) -> Option<LayoutModel> {
    match strip {
        Some(s) => Some(s@),
        None => None,
    }
}

impl View for ChunkStrip {
    type V = StripModel;

    open spec fn view(&self) -> StripModel {
        StripModel {
            chunk_offset: self.chunk_offset,
            strip_sequence: self.strip_sequence,
            unit_kb: self.unit_kb,
            capacity: self.capacity,
            create_ts_ms: self.create_ts_ms,
            sealed_ts_ms: self.sealed_ts_ms,
            sealed_length: self.sealed_length,
            strip_type: self.strip_type,
            strip: layout_model(self.strip),
            usage_bitmap: self.usage_bitmap@,
            unavailable_segments: self.unavailable_segments@,
            placement_repair_required: self.placement_repair_required,
            placement_assessment: self.placement_assessment,
            placement_priority: self.placement_priority,
        }
    }
}

/// Models of a run of strips.
pub open spec fn strip_models(strips: Seq<ChunkStrip>) -> Seq<StripModel> {
    Seq::new(strips.len(), |i: int| strips[i]@)
}

/// Model of an optional strip.
pub open spec fn strip_option_model(strip: Option<ChunkStrip>) -> Option<StripModel> {
    match strip {
        Some(s) => Some(s@),
        None => None,
    }
}

/// Segments that left a chunk and may be freed once readers of the earlier
/// layout are gone.
#[derive(Debug, PartialEq, Eq)]
pub struct StripCleanupIntent {
    pub operation_id: Option<ChunkId>,
    pub retired_segments: Vec<Segment>,
    pub not_before_ms: u64,
}

/// Model of a cleanup intent.
pub struct IntentModel {
    pub operation_id: Option<ChunkId>,
    pub retired_segments: Seq<Segment>,
    pub not_before_ms: u64,
}

impl View for StripCleanupIntent {
    type V = IntentModel;

    open spec fn view(&self) -> IntentModel {
        IntentModel {
            operation_id: self.operation_id,
            retired_segments: self.retired_segments@,
            not_before_ms: self.not_before_ms,
        }
    }
}

/// Models of a run of cleanup intents.
pub open spec fn intent_models(intents: Seq<StripCleanupIntent>) -> Seq<IntentModel> {
    Seq::new(intents.len(), |i: int| intents[i]@)
}

/// The metadata record of one chunk.
#[derive(Debug, PartialEq, Eq)]
pub struct Chunk {
    pub id: Option<ChunkId>,
    pub modify_ts: u64,
    pub state: ChunkState,
    pub create_ts_ms: u64,
    pub sealed_ts_ms: u64,
    pub capacity: u32,
    pub sealed_length: u32,
    pub strips: Vec<ChunkStrip>,
    pub chunk_type: ChunkType,
    pub writer_epoch: u64,
    pub acknowledged_cursor: u64,
    pub closed_strip_sequence: Option<u32>,
    pub writer_lease_deadline_ms: u64,
    pub next_strip_sequence: u32,
    pub cleanup_intents: Vec<StripCleanupIntent>,
    pub last_strip_replacement: Option<ChunkId>,
}

/// Model of a chunk record.
pub struct ChunkModel {
    pub id: Option<ChunkId>,
    pub modify_ts: u64,
    pub state: ChunkState,
    pub create_ts_ms: u64,
    pub sealed_ts_ms: u64,
    pub capacity: u32,
    pub sealed_length: u32,
    pub strips: Seq<StripModel>,
    pub chunk_type: ChunkType,
    pub writer_epoch: u64,
    pub acknowledged_cursor: u64,
    pub closed_strip_sequence: Option<u32>,
    pub writer_lease_deadline_ms: u64,
    pub next_strip_sequence: u32,
    pub cleanup_intents: Seq<IntentModel>,
    pub last_strip_replacement: Option<ChunkId>,
}

impl View for Chunk {
    type V = ChunkModel;

    open spec fn view(&self) -> ChunkModel {
        ChunkModel {
            id: self.id,
            modify_ts: self.modify_ts,
            state: self.state,
            create_ts_ms: self.create_ts_ms,
            sealed_ts_ms: self.sealed_ts_ms,
            capacity: self.capacity,
            sealed_length: self.sealed_length,
            strips: strip_models(self.strips@),
            chunk_type: self.chunk_type,
            writer_epoch: self.writer_epoch,
            acknowledged_cursor: self.acknowledged_cursor,
            closed_strip_sequence: self.closed_strip_sequence,
            writer_lease_deadline_ms: self.writer_lease_deadline_ms,
            next_strip_sequence: self.next_strip_sequence,
            cleanup_intents: intent_models(self.cleanup_intents@),
            last_strip_replacement: self.last_strip_replacement,
        }
    }
}

/// Sum of the capacities of a run of strips.
pub open spec fn total_capacity(strips: Seq<StripModel>) -> int
    decreases strips.len(),
{
    if strips.len() == 0 {
        0
    } else {
        total_capacity(strips.drop_last()) + strips.last().capacity
    }
}

/// All segments of a run of strips, in order.
pub open spec fn all_segments(strips: Seq<StripModel>) -> Seq<Segment>
    decreases strips.len(),
{
    if strips.len() == 0 {
        Seq::empty()
    } else {
        all_segments(strips.drop_last()) + strips.last().segments()
    }
}

/// A longer run of strips has at least the capacity of its prefixes.
pub proof fn lemma_capacity_of_prefix(strips: Seq<StripModel>, n: int)
    requires
        0 <= n <= strips.len(),
    ensures
        0 <= total_capacity(strips.take(n)) <= total_capacity(strips),
    decreases strips.len() - n,
{
    lemma_capacity_nonnegative(strips.take(n));
    if n < strips.len() {
        lemma_capacity_of_prefix(strips, n + 1);
        assert(strips.take(n + 1).drop_last() =~= strips.take(n));
        assert(strips.take(n + 1).last() == strips[n]);
    } else {
        assert(strips.take(n) =~= strips);
    }
}

/// Capacities add up to no less than zero.
pub proof fn lemma_capacity_nonnegative(strips: Seq<StripModel>)
    ensures
        total_capacity(strips) >= 0,
    decreases strips.len(),
{
    if strips.len() > 0 {
        lemma_capacity_nonnegative(strips.drop_last());
    }
}

/// The capacity of a run is the sum of the capacities, and its segments are those
/// of its mirrored and erasure-coded strips, in order.
pub proof fn law_runs_add_up(strips: Seq<StripModel>)
    ensures
        total_capacity(strips) == strips.fold_left(
            0int,
            |sum: int, strip: StripModel| sum + strip.capacity,
        ),
        all_segments(strips) == strips.fold_left(
            Seq::<Segment>::empty(),
            |before: Seq<Segment>, strip: StripModel|
                match strip.strip {
                    Some(LayoutModel::Mirror { segments }) => before + segments,
                    Some(LayoutModel::Ec { segments, .. }) => before + segments,
                    None => before,
                },
        ),
    decreases strips.len(),
{
    reveal(Seq::fold_left);
    if strips.len() > 0 {
        law_runs_add_up(strips.drop_last());
        let before = all_segments(strips.drop_last());
        assert(before + Seq::<Segment>::empty() =~= before);
    }
}

/// Capacities of two runs add up to the capacity of their concatenation.
pub proof fn lemma_capacity_concat(a: Seq<StripModel>, b: Seq<StripModel>)
    ensures
        total_capacity(a + b) == total_capacity(a) + total_capacity(b),
    decreases b.len(),
{
    if b.len() == 0 {
        assert(a + b =~= a);
    } else {
        lemma_capacity_concat(a, b.drop_last());
        assert((a + b).drop_last() =~= a + b.drop_last());
        assert((a + b).last() == b.last());
    }
}

/// The segments of two runs follow each other in their concatenation.
pub proof fn lemma_segments_concat(a: Seq<StripModel>, b: Seq<StripModel>)
    ensures
        all_segments(a + b) == all_segments(a) + all_segments(b),
    decreases b.len(),
{
    if b.len() == 0 {
        assert(a + b =~= a);
        assert(all_segments(a) + all_segments(b) =~= all_segments(a));
    } else {
        lemma_segments_concat(a, b.drop_last());
        assert((a + b).drop_last() =~= a + b.drop_last());
        assert((a + b).last() == b.last());
        assert(all_segments(a + b) =~= all_segments(a) + all_segments(b));
    }
}

/// A segment is among those of a run exactly where one of the strips holds it.
pub proof fn lemma_segments_contains(strips: Seq<StripModel>, segment: Segment)
    ensures
        all_segments(strips).contains(segment) <==> exists|i: int|
            0 <= i < strips.len() && (#[trigger] strips[i]).segments().contains(segment),
    decreases strips.len(),
{
    if strips.len() > 0 {
        let front = strips.drop_last();
        lemma_segments_contains(front, segment);
        let whole = all_segments(front) + strips.last().segments();
        if all_segments(strips).contains(segment) {
            let k = choose|k: int| 0 <= k < whole.len() && whole[k] == segment;
            if k < all_segments(front).len() {
                assert(all_segments(front)[k] == segment);
                let i = choose|i: int|
                    0 <= i < front.len() && (#[trigger] front[i]).segments().contains(segment);
                assert(strips[i] == front[i]);
            } else {
                assert(strips.last().segments()[k - all_segments(front).len()] == segment);
                assert(strips[strips.len() - 1].segments().contains(segment));
            }
        }
        if exists|i: int| 0 <= i < strips.len() && (#[trigger] strips[i]).segments().contains(segment) {
            let i = choose|i: int|
                0 <= i < strips.len() && (#[trigger] strips[i]).segments().contains(segment);
            if i < front.len() {
                assert(front[i] == strips[i]);
                let k = choose|k: int|
                    0 <= k < all_segments(front).len() && all_segments(front)[k] == segment;
                assert(whole[k] == segment);
            } else {
                let k = choose|k: int|
                    0 <= k < strips.last().segments().len() && strips.last().segments()[k] == segment;
                assert(whole[all_segments(front).len() + k] == segment);
            }
        }
    }
}

/// Copies a run of segments.
pub fn copy_segments(segments: &[Segment]) -> (r: Vec<Segment>)
    ensures
        r@ == segments@,
{
    let mut out: Vec<Segment> = Vec::new();
    let mut i: usize = 0;
    while i < segments.len()
        invariant
            i <= segments.len(),
            out@ == segments@.take(i as int),
        decreases segments.len() - i,
    {
        out.push(segments[i]);
        assert(segments@.take(i + 1) =~= segments@.take(i as int).push(segments@[i as int]));
        i = i + 1;
    }
    assert(segments@.take(i as int) =~= segments@);
    out
}

/// Copies bytes.
pub fn copy_bytes(bytes: &[u8]) -> (r: Vec<u8>)
    ensures
        r@ == bytes@,
{
    let mut out: Vec<u8> = Vec::new();
    let mut i: usize = 0;
    while i < bytes.len()
        invariant
            i <= bytes.len(),
            out@ == bytes@.take(i as int),
        decreases bytes.len() - i,
    {
        out.push(bytes[i]);
        assert(bytes@.take(i + 1) =~= bytes@.take(i as int).push(bytes@[i as int]));
        i = i + 1;
    }
    assert(bytes@.take(i as int) =~= bytes@);
    out
}

/// Whether `segments` holds `segment`.
pub fn contains_segment(segments: &[Segment], segment: &Segment) -> (r: bool)
    ensures
        r == segments@.contains(*segment),
{
    let mut i: usize = 0;
    while i < segments.len()
        invariant
            i <= segments.len(),
            forall|j: int| 0 <= j < i ==> segments@[j] != *segment,
        decreases segments.len() - i,
    {
        if segments[i] == *segment {
            assert(segments@[i as int] == *segment);
            return true;
        }
        i = i + 1;
    }
    false
}

/// Whether `disks` holds `disk`.
pub fn contains_disk(disks: &[DiskId], disk: DiskId) -> (r: bool)
    ensures
        r == disks@.contains(disk),
{
    let mut i: usize = 0;
    while i < disks.len()
        invariant
            i <= disks.len(),
            forall|j: int| 0 <= j < i ==> disks@[j] != disk,
        decreases disks.len() - i,
    {
        if disks[i] == disk {
            assert(disks@[i as int] == disk);
            return true;
        }
        i = i + 1;
    }
    false
}

/// Position of the first equal segment.
pub fn position_segment(segments: &[Segment], segment: &Segment) -> (r: Option<usize>)
    ensures
        match r {
            Some(i) => i < segments@.len() && segments@[i as int] == *segment && forall|j: int|
                0 <= j < i ==> segments@[j] != *segment,
            None => !segments@.contains(*segment),
        },
{
    let mut i: usize = 0;
    while i < segments.len()
        invariant
            i <= segments.len(),
            forall|j: int| 0 <= j < i ==> segments@[j] != *segment,
        decreases segments.len() - i,
    {
        if segments[i] == *segment {
            return Some(i);
        }
        i = i + 1;
    }
    None
}

/// Whether two runs of segments are equal.
pub fn segments_equal(a: &[Segment], b: &[Segment]) -> (r: bool)
    ensures
        r == (a@ == b@),
{
    if a.len() != b.len() {
        return false;
    }
    let mut i: usize = 0;
    while i < a.len()
        invariant
            i <= a.len(),
            a.len() == b.len(),
            forall|j: int| 0 <= j < i ==> a@[j] == b@[j],
        decreases a.len() - i,
    {
        if a[i] != b[i] {
            assert(a@[i as int] != b@[i as int]);
            return false;
        }
        i = i + 1;
    }
    assert(a@ =~= b@);
    true
}

fn bytes_equal(a: &[u8], b: &[u8]) -> (r: bool)
    ensures
        r == (a@ == b@),
{
    if a.len() != b.len() {
        return false;
    }
    let mut i: usize = 0;
    while i < a.len()
        invariant
            i <= a.len(),
            a.len() == b.len(),
            forall|j: int| 0 <= j < i ==> a@[j] == b@[j],
        decreases a.len() - i,
    {
        if a[i] != b[i] {
            assert(a@[i as int] != b@[i as int]);
            return false;
        }
        i = i + 1;
    }
    assert(a@ =~= b@);
    true
}

impl Clone for Strip {
    fn clone(&self) -> (r: Self)
        ensures
            r@ == self@,
    {
        match self {
            Strip::MirrorStrip(m) => Strip::MirrorStrip(MirrorStrip { segments: copy_segments(&m.segments) }),
            Strip::EcStrip(e) => Strip::EcStrip(
                EcStrip {
                    data_num: e.data_num,
                    code_num: e.code_num,
                    ec_state: e.ec_state,
                    segments: copy_segments(&e.segments),
                },
            ),
        }
    }
}

impl Strip {
    /// The segments of the layout.
    pub fn segments(&self) -> (r: &Vec<Segment>)
        ensures
            r@ == self@.segments(),
    {
        match self {
            Strip::MirrorStrip(m) => &m.segments,
            Strip::EcStrip(e) => &e.segments,
        }
    }

    /// Whether two layouts are equal.
    pub fn same(&self, other: &Strip) -> (r: bool)
        ensures
            r == (self@ == other@),
    {
        match (self, other) {
            (Strip::MirrorStrip(a), Strip::MirrorStrip(b)) => segments_equal(&a.segments, &b.segments),
            (Strip::EcStrip(a), Strip::EcStrip(b)) => a.data_num == b.data_num && a.code_num
                == b.code_num && a.ec_state == b.ec_state && segments_equal(&a.segments, &b.segments),
            _ => false,
        }
    }
}

impl Clone for ChunkStrip {
    fn clone(&self) -> (r: Self)
        ensures
            r@ == self@,
    {
        let strip = match &self.strip {
            Some(s) => Some(s.clone()),
            None => None,
        };
        ChunkStrip {
            chunk_offset: self.chunk_offset,
            strip_sequence: self.strip_sequence,
            unit_kb: self.unit_kb,
            capacity: self.capacity,
            create_ts_ms: self.create_ts_ms,
            sealed_ts_ms: self.sealed_ts_ms,
            sealed_length: self.sealed_length,
            strip_type: self.strip_type,
            strip,
            usage_bitmap: copy_bytes(&self.usage_bitmap),
            unavailable_segments: copy_segments(&self.unavailable_segments),
            placement_repair_required: self.placement_repair_required,
            placement_assessment: self.placement_assessment,
            placement_priority: self.placement_priority,
        }
    }
}

impl ChunkStrip {
    /// Whether two strips are equal.
    pub fn same(&self, other: &ChunkStrip) -> (r: bool)
        ensures
            r == (self@ == other@),
    {
        let layouts = match (&self.strip, &other.strip) {
            (Some(a), Some(b)) => a.same(b),
            (None, None) => true,
            _ => false,
        };
        layouts && self.chunk_offset == other.chunk_offset && self.strip_sequence
            == other.strip_sequence && self.unit_kb == other.unit_kb && self.capacity == other.capacity
            && self.create_ts_ms == other.create_ts_ms && self.sealed_ts_ms == other.sealed_ts_ms
            && self.sealed_length == other.sealed_length && self.strip_type == other.strip_type
            && bytes_equal(&self.usage_bitmap, &other.usage_bitmap) && segments_equal(
            &self.unavailable_segments,
            &other.unavailable_segments,
        ) && self.placement_repair_required == other.placement_repair_required
            && self.placement_assessment == other.placement_assessment && self.placement_priority
            == other.placement_priority
    }

    /// All segments of the strip.
    pub fn extract_segments(&self) -> (r: Vec<Segment>)
        ensures
            r@ == self@.segments(),
    {
        match &self.strip {
            Some(s) => copy_segments(s.segments()),
            None => Vec::new(),
        }
    }

    /// The copies of a mirrored strip.
    pub fn mirror_segments(&self) -> (r: Vec<Segment>)
        ensures
            r@ == self@.mirror_segments(),
    {
        match &self.strip {
            Some(Strip::MirrorStrip(m)) => copy_segments(&m.segments),
            _ => Vec::new(),
        }
    }
}

impl Clone for StripCleanupIntent {
    fn clone(&self) -> (r: Self)
        ensures
            r@ == self@,
    {
        StripCleanupIntent {
            operation_id: self.operation_id,
            retired_segments: copy_segments(&self.retired_segments),
            not_before_ms: self.not_before_ms,
        }
    }
}

impl StripCleanupIntent {
    /// Whether two intents are equal.
    pub fn same(&self, other: &StripCleanupIntent) -> (r: bool)
        ensures
            r == (self@ == other@),
    {
        self.operation_id == other.operation_id && segments_equal(
            &self.retired_segments,
            &other.retired_segments,
        ) && self.not_before_ms == other.not_before_ms
    }
}

/// Copies a run of strips.
pub fn copy_strips(strips: &[ChunkStrip]) -> (r: Vec<ChunkStrip>)
    ensures
        strip_models(r@) == strip_models(strips@),
{
    copy_strip_range(strips, 0, strips.len())
}

/// Copies the strips of `start..end`.
pub fn copy_strip_range(strips: &[ChunkStrip], start: usize, end: usize) -> (r: Vec<ChunkStrip>)
    requires
        start <= end <= strips@.len(),
    ensures
        strip_models(r@) == strip_models(strips@).subrange(start as int, end as int),
{
    let mut out: Vec<ChunkStrip> = Vec::new();
    let mut i: usize = start;
    while i < end
        invariant
            start <= i <= end <= strips@.len(),
            out@.len() == i - start,
            forall|j: int| 0 <= j < out@.len() ==> (#[trigger] out@[j])@ == strips@[start + j]@,
        decreases end - i,
    {
        out.push(strips[i].clone());
        i = i + 1;
    }
    assert(strip_models(out@) =~= strip_models(strips@).subrange(start as int, end as int));
    out
}

/// Appends copies of `more`.
pub fn append_strips(strips: &mut Vec<ChunkStrip>, more: &[ChunkStrip])
    ensures
        strip_models(final(strips)@) == strip_models(old(strips)@) + strip_models(more@),
{
    let ghost before = strips@;
    let mut i: usize = 0;
    while i < more.len()
        invariant
            i <= more.len(),
            strips@.len() == before.len() + i,
            forall|j: int| 0 <= j < before.len() ==> strips@[j] == before[j],
            forall|j: int|
                before.len() <= j < strips@.len() ==> (#[trigger] strips@[j])@ == more@[j - before.len()]@,
        decreases more.len() - i,
    {
        strips.push(more[i].clone());
        i = i + 1;
    }
    assert(strip_models(strips@) =~= strip_models(before) + strip_models(more@));
}

/// Whether `strips[start..]` begins with `expected`.
pub fn strips_at(strips: &[ChunkStrip], start: usize, expected: &[ChunkStrip]) -> (r: bool)
    ensures
        r == (start + expected@.len() <= strips@.len() && strip_models(strips@).subrange(
            start as int,
            start + expected@.len(),
        ) == strip_models(expected@)),
{
    if start > strips.len() || expected.len() > strips.len() - start {
        return false;
    }
    let n: usize = strips.len();
    let mut i: usize = 0;
    while i < expected.len()
        invariant
            i <= expected.len(),
            n == strips@.len(),
            start + expected@.len() <= n,
            forall|j: int|
                0 <= j < i ==> strips@[start + j]@ == (#[trigger] expected@[j])@,
        decreases expected.len() - i,
    {
        if !strips[start + i].same(&expected[i]) {
            proof {
                let range = strip_models(strips@).subrange(start as int, start + expected@.len());
                assert(range[i as int] != strip_models(expected@)[i as int]);
            }
            return false;
        }
        i = i + 1;
    }
    assert(strip_models(strips@).subrange(start as int, start + expected@.len()) =~= strip_models(
        expected@,
    ));
    true
}

/// Copies a run of cleanup intents.
pub fn copy_intents(intents: &[StripCleanupIntent]) -> (r: Vec<StripCleanupIntent>)
    ensures
        intent_models(r@) == intent_models(intents@),
{
    let mut out: Vec<StripCleanupIntent> = Vec::new();
    let mut i: usize = 0;
    while i < intents.len()
        invariant
            i <= intents.len(),
            out@.len() == i,
            forall|j: int| 0 <= j < i ==> (#[trigger] out@[j])@ == intents@[j]@,
        decreases intents.len() - i,
    {
        out.push(intents[i].clone());
        i = i + 1;
    }
    assert(intent_models(out@) =~= intent_models(intents@));
    out
}

fn intents_equal(a: &[StripCleanupIntent], b: &[StripCleanupIntent]) -> (r: bool)
    ensures
        r == (intent_models(a@) == intent_models(b@)),
{
    if a.len() != b.len() {
        assert(intent_models(a@).len() != intent_models(b@).len());
        return false;
    }
    let mut i: usize = 0;
    while i < a.len()
        invariant
            i <= a.len(),
            a.len() == b.len(),
            forall|j: int| 0 <= j < i ==> (#[trigger] a@[j])@ == b@[j]@,
        decreases a.len() - i,
    {
        if !a[i].same(&b[i]) {
            assert(intent_models(a@)[i as int] != intent_models(b@)[i as int]);
            return false;
        }
        i = i + 1;
    }
    assert(intent_models(a@) =~= intent_models(b@));
    true
}

impl Clone for Chunk {
    fn clone(&self) -> (r: Self)
        ensures
            r@ == self@,
    {
        Chunk {
            id: self.id,
            modify_ts: self.modify_ts,
            state: self.state,
            create_ts_ms: self.create_ts_ms,
            sealed_ts_ms: self.sealed_ts_ms,
            capacity: self.capacity,
            sealed_length: self.sealed_length,
            strips: copy_strips(&self.strips),
            chunk_type: self.chunk_type,
            writer_epoch: self.writer_epoch,
            acknowledged_cursor: self.acknowledged_cursor,
            closed_strip_sequence: self.closed_strip_sequence,
            writer_lease_deadline_ms: self.writer_lease_deadline_ms,
            next_strip_sequence: self.next_strip_sequence,
            cleanup_intents: copy_intents(&self.cleanup_intents),
            last_strip_replacement: self.last_strip_replacement,
        }
    }
}

impl Chunk {
    /// Whether two chunk records are equal.
    pub fn same(&self, other: &Chunk) -> (r: bool)
        ensures
            r == (self@ == other@),
    {
        let strips = self.strips.len() == other.strips.len() && strips_at(&self.strips, 0, &other.strips);
        proof {
            let mine = strip_models(self.strips@);
            assert(mine.subrange(0, mine.len() as int) =~= mine);
            if self.strips@.len() != other.strips@.len() {
                assert(mine.len() != strip_models(other.strips@).len());
            }
        }
        strips && self.id == other.id && self.modify_ts == other.modify_ts && self.state
            == other.state && self.create_ts_ms == other.create_ts_ms && self.sealed_ts_ms
            == other.sealed_ts_ms && self.capacity == other.capacity && self.sealed_length
            == other.sealed_length && self.chunk_type == other.chunk_type && self.writer_epoch
            == other.writer_epoch && self.acknowledged_cursor == other.acknowledged_cursor
            && self.closed_strip_sequence == other.closed_strip_sequence
            && self.writer_lease_deadline_ms == other.writer_lease_deadline_ms
            && self.next_strip_sequence == other.next_strip_sequence && intents_equal(
            &self.cleanup_intents,
            &other.cleanup_intents,
        ) && self.last_strip_replacement == other.last_strip_replacement
    }
}

/// All segments of a run of strips, in order.
pub fn extract_all_segments(strips: &[ChunkStrip]) -> (r: Vec<Segment>)
    ensures
        r@ == all_segments(strip_models(strips@)),
{
    let mut out: Vec<Segment> = Vec::new();
    let mut i: usize = 0;
    while i < strips.len()
        invariant
            i <= strips.len(),
            out@ == all_segments(strip_models(strips@).take(i as int)),
        decreases strips.len() - i,
    {
        let mut more = strips[i].extract_segments();
        out.append(&mut more);
        proof {
            let models = strip_models(strips@);
            assert(models.take(i + 1).drop_last() =~= models.take(i as int));
            assert(models.take(i + 1).last() == strips@[i as int]@);
        }
        i = i + 1;
    }
    assert(strip_models(strips@).take(i as int) =~= strip_models(strips@));
    out
}

/// Whether the capacities of `strips` add up within `u32`.
pub fn capacity_fits(strips: &[ChunkStrip]) -> (r: bool)
    ensures
        r == (total_capacity(strip_models(strips@)) <= u32::MAX),
{
    let mut sum: u32 = 0;
    let mut i: usize = 0;
    while i < strips.len()
        invariant
            i <= strips.len(),
            sum == total_capacity(strip_models(strips@).take(i as int)),
        decreases strips.len() - i,
    {
        proof {
            let models = strip_models(strips@);
            assert(models.take(i + 1).drop_last() =~= models.take(i as int));
            assert(models.take(i + 1).last() == strips@[i as int]@);
            lemma_capacity_of_prefix(models, i + 1);
        }
        if strips[i].capacity > u32::MAX - sum {
            return false;
        }
        sum = sum + strips[i].capacity;
        i = i + 1;
    }
    assert(strip_models(strips@).take(i as int) =~= strip_models(strips@));
    true
}

/// Sum of the capacities of `strips`.
pub fn sum_capacity(strips: &[ChunkStrip]) -> (r: u32)
    requires
        total_capacity(strip_models(strips@)) <= u32::MAX,
    ensures
        r == total_capacity(strip_models(strips@)),
{
    let mut sum: u32 = 0;
    let mut i: usize = 0;
    while i < strips.len()
        invariant
            i <= strips.len(),
            total_capacity(strip_models(strips@)) <= u32::MAX,
            sum == total_capacity(strip_models(strips@).take(i as int)),
        decreases strips.len() - i,
    {
        proof {
            let models = strip_models(strips@);
            assert(models.take(i + 1).drop_last() =~= models.take(i as int));
            assert(models.take(i + 1).last() == strips@[i as int]@);
            lemma_capacity_of_prefix(models, i + 1);
        }
        sum = sum + strips[i].capacity;
        i = i + 1;
    }
    assert(strip_models(strips@).take(i as int) =~= strip_models(strips@));
    sum
}

} // verus!
