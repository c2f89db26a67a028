//! One attempt of a strip repair.
use vstd::prelude::*;
use crate::arith::{clip_u64, clip_usize, sat_add_usize, sat_mul_u64};
use crate::conversion::attempt::{readable, readable_segments};
use crate::lifecycle::error::{LifecycleError, LifecycleErrorModel};
use crate::lifecycle::handler::{find_sequence, strip_with_sequence};
use crate::lifecycle::replace::{distinct_without, segments_without};
use crate::order::stable_sorted;
use crate::repair::{
    sort_segments, RepairError, RepairErrorModel, RepairModel, RepairStripTaskV1,
    REPAIR_STRIP_TASK_VERSION,
};
use crate::task::executor::{OutcomeModel, TaskOutcome};
use crate::task::relocation::{first_at, first_index, replace_segment, with_segment};
use crate::task::TaskKind;
use crate::text::{decimal, text, text_two_numbers};
use crate::types::{
    contains_segment, copy_segments, position_segment, Chunk, ChunkModel, ChunkStrip, DiskId,
    EcState, EcStrip, Segment, StripModel,
};

verus! {

/// Pause before a repair is tried again.
pub const REPAIR_RETRY_MS: u64 = 5_000;

/// Why an attempt ended.
#[derive(Debug)]
pub enum RepairRunError {
    Lifecycle(LifecycleError),
    Repair(RepairError),
    Retry(String),
    Permanent(String),
}

/// Model of a run error.
pub enum RepairRunModel {
    Lifecycle(LifecycleErrorModel),
    Repair(RepairErrorModel),
    Retry(Seq<char>),
    Permanent(Seq<char>),
}

impl View for RepairRunError {
    type V = RepairRunModel;

    open spec fn view(&self) -> RepairRunModel {
        match self {
            RepairRunError::Lifecycle(e) => RepairRunModel::Lifecycle(e@),
            RepairRunError::Repair(e) => RepairRunModel::Repair(e@),
            RepairRunError::Retry(m) => RepairRunModel::Retry(m@),
            RepairRunError::Permanent(m) => RepairRunModel::Permanent(m@),
        }
    }
}

impl RepairRunModel {
    /// Text of the error.
    pub open spec fn message(self) -> Seq<char> {
        match self {
            RepairRunModel::Lifecycle(e) => e.message(),
            RepairRunModel::Repair(e) => e.message(),
            RepairRunModel::Retry(m) => m,
            RepairRunModel::Permanent(m) => m,
        }
    }
}

impl RepairRunError {
    /// Text of the error.
    pub fn message(&self) -> (r: String)
        ensures
            r@ == self@.message(),
    {
        match self {
            RepairRunError::Lifecycle(e) => e.message(),
            RepairRunError::Repair(e) => e.message(),
            RepairRunError::Retry(m) => text(m.as_str()),
            RepairRunError::Permanent(m) => text(m.as_str()),
        }
    }
}

fn permanent(message: &str) -> (r: RepairRunError)
    ensures
        r@ == RepairRunModel::Permanent(message@),
{
    RepairRunError::Permanent(text(message))
}

/// The segments of a strip, which must be there.
pub fn strip_segments(strip: &ChunkStrip) -> (r: Result<Vec<Segment>, RepairRunError>)
    ensures
        match r {
            Ok(segments) => segments@ == strip@.segments() && segments@.len() > 0,
            Err(error) => strip@.segments().len() == 0 && error@ == RepairRunModel::Permanent(
                "strip has no segments"@,
            ),
        },
{
    let segments = strip.extract_segments();
    if segments.len() == 0 {
        return Err(permanent("strip has no segments"));
    }
    Ok(segments)
}

/// Bytes of a segment.
pub fn segment_size(segment: &Segment, unit_bytes: u64) -> (r: Result<u64, RepairRunError>)
    ensures
        match r {
            Ok(bytes) => bytes == segment.unit_count * unit_bytes,
            Err(error) => segment.unit_count * unit_bytes > u64::MAX && error@
                == RepairRunModel::Permanent("segment size overflows"@),
        },
{
    match (segment.unit_count as u64).checked_mul(unit_bytes) {
        Some(bytes) => Ok(bytes),
        None => Err(permanent("segment size overflows")),
    }
}

/// Those of the segments that are among others, in order.
pub open spec fn among(segments: Seq<Segment>, others: Seq<Segment>) -> Seq<Segment>
    decreases segments.len(),
{
    if segments.len() == 0 {
        Seq::empty()
    } else {
        let front = among(segments.drop_last(), others);
        if others.contains(segments.last()) {
            front.push(segments.last())
        } else {
            front
        }
    }
}

fn segments_among(segments: &[Segment], others: &[Segment]) -> (r: Vec<Segment>)
    ensures
        r@ == among(segments@, others@),
{
    let mut out: Vec<Segment> = Vec::new();
    let mut i: usize = 0;
    while i < segments.len()
        invariant
            i <= segments.len(),
            out@ == among(segments@.take(i as int), others@),
        decreases segments.len() - i,
    {
        proof {
            assert(segments@.take(i + 1).drop_last() =~= segments@.take(i as int));
            assert(segments@.take(i + 1).last() == segments@[i as int]);
        }
        if contains_segment(others, &segments[i]) {
            out.push(segments[i]);
        }
        i = i + 1;
    }
    assert(segments@.take(i as int) =~= segments@);
    out
}

/// What an attempt recovers, and what it takes.
#[derive(Debug)]
pub struct RecoveryPlan {
    pub strip_index: usize,
    pub segments: Vec<Segment>,
    /// The marked segments of the strip.
    pub unavailable: Vec<Segment>,
    pub unit_bytes: u64,
    pub shard_bytes: u64,
    /// Memory to hold while the strip is recovered.
    pub required: u32,
}

/// Model of a recovery plan.
pub struct RecoveryModel {
    pub strip_index: int,
    pub segments: Seq<Segment>,
    pub unavailable: Seq<Segment>,
    pub unit_bytes: u64,
    pub shard_bytes: u64,
    pub required: u32,
}

impl View for RecoveryPlan {
    type V = RecoveryModel;

    open spec fn view(&self) -> RecoveryModel {
        RecoveryModel {
            strip_index: self.strip_index as int,
            segments: self.segments@,
            unavailable: self.unavailable@,
            unit_bytes: self.unit_bytes,
            shard_bytes: self.shard_bytes,
            required: self.required,
        }
    }
}

/// Text of the refusal for want of memory.
pub open spec fn memory_message(required: nat, limit: nat) -> Seq<char> {
    "repair requires "@ + decimal(required) + " bytes but the limit is "@ + decimal(limit)
}

/// What an attempt recovers; nothing where the strip is gone or no longer
/// marked.
pub open spec fn recovery_of(chunk: ChunkModel, payload: RepairModel, memory_limit: usize) -> Result<
    Option<RecoveryModel>,
    RepairRunModel,
> {
    match strip_with_sequence(chunk.strips, payload.strip_sequence, 0) {
        None => Ok(None),
        Some(index) => {
            let strip = chunk.strips[index];
            let segments = strip.segments();
            let unavailable = among(strip.unavailable_segments, segments);
            let unit_bytes = strip.unit_kb * 1024;
            let shard_bytes = segments[0].unit_count * unit_bytes;
            let required = shard_bytes * clip_usize((segments.len() + 1) as int);
            if segments.len() == 0 {
                Err(RepairRunModel::Permanent("strip has no segments"@))
            } else if unavailable.len() == 0 {
                Ok(None)
            } else if shard_bytes > u64::MAX {
                Err(RepairRunModel::Permanent("segment size overflows"@))
            } else if required > u64::MAX || required > usize::MAX {
                Err(RepairRunModel::Permanent("repair memory calculation overflows"@))
            } else if required > memory_limit {
                Err(RepairRunModel::Retry(memory_message(required as nat, memory_limit as nat)))
            } else if required > u32::MAX {
                Err(RepairRunModel::Permanent("repair memory exceeds semaphore"@))
            } else {
                Ok(
                    Some(
                        RecoveryModel {
                            strip_index: index,
                            segments,
                            unavailable,
                            unit_bytes: unit_bytes as u64,
                            shard_bytes: shard_bytes as u64,
                            required: required as u32,
                        },
                    ),
                )
            }
        },
    }
}

/// Model of a recovery plan's result.
pub open spec fn recovery_result(r: Result<Option<RecoveryPlan>, RepairRunError>) -> Result<
    Option<RecoveryModel>,
    RepairRunModel,
> {
    match r {
        Ok(Some(plan)) => Ok(Some(plan@)),
        Ok(None) => Ok(None),
        Err(error) => Err(error@),
    }
}

/// What the reads of a strip came to.
#[derive(Debug)]
pub enum ReadVerdict {
    /// The strip can be recovered from what was read.
    Usable,
    /// Mark these segments, too, before the repair is tried again.
    NewFailures(Vec<Segment>),
}

/// Model of a verdict.
pub enum VerdictModel {
    Usable,
    NewFailures(Seq<Segment>),
}

impl View for ReadVerdict {
    type V = VerdictModel;

    open spec fn view(&self) -> VerdictModel {
        match self {
            ReadVerdict::Usable => VerdictModel::Usable,
            ReadVerdict::NewFailures(segments) => VerdictModel::NewFailures(segments@),
        }
    }
}

/// Model of a verdict's result.
pub open spec fn verdict_result(r: Result<ReadVerdict, RepairRunError>) -> Result<
    VerdictModel,
    RepairRunModel,
> {
    match r {
        Ok(verdict) => Ok(verdict@),
        Err(error) => Err(error@),
    }
}

/// The segments that could not be read.
pub open spec fn unread(segments: Seq<Segment>, read: Seq<bool>) -> Seq<Segment>
    decreases segments.len(),
{
    if segments.len() == 0 {
        Seq::empty()
    } else {
        let front = unread(segments.drop_last(), read);
        if read[segments.len() - 1] {
            front
        } else {
            front.push(segments.last())
        }
    }
}

fn unread_segments(segments: &[Segment], read: &[bool]) -> (r: Vec<Segment>)
    requires
        read@.len() <= segments@.len(),
    ensures
        r@ == unread(segments@.take(read@.len() as int), read@),
{
    let mut out: Vec<Segment> = Vec::new();
    let mut i: usize = 0;
    while i < read.len()
        invariant
            i <= read@.len() <= segments@.len(),
            out@ == unread(segments@.take(i as int), read@),
        decreases read.len() - i,
    {
        proof {
            assert(segments@.take(i + 1).drop_last() =~= segments@.take(i as int));
            assert(segments@.take(i + 1).last() == segments@[i as int]);
        }
        if !read[i] {
            out.push(segments[i]);
        }
        i = i + 1;
    }
    out
}

/// What the reads of a mirrored strip came to.
pub open spec fn mirror_verdict(segments: Seq<Segment>, unavailable: Seq<Segment>, read: Seq<bool>) -> Result<
    VerdictModel,
    RepairRunModel,
> {
    let failures = distinct_without(
        unread(segments.take(read.len() as int), read),
        unavailable,
    );
    if failures.len() > 0 {
        Ok(VerdictModel::NewFailures(failures))
    } else if !read.contains(true) {
        Err(RepairRunModel::Retry("no readable mirror remains"@))
    } else {
        Ok(VerdictModel::Usable)
    }
}

/// Text of the refusal for want of shards.
pub open spec fn shards_message(missing: nat, code_num: nat) -> Seq<char> {
    "EC strip has "@ + decimal(missing) + " unavailable shards and "@ + decimal(code_num)
        + " parity shards"@
}

/// What the reads of an erasure-coded strip came to.
pub open spec fn ec_verdict(
    segments: Seq<Segment>,
    unavailable: Seq<Segment>,
    read: Seq<bool>,
    code_num: u32,
) -> Result<VerdictModel, RepairRunModel> {
    let failures = distinct_without(unread(segments, read), unavailable);
    let missing = (segments.len() - readable(segments, unavailable).len()) as nat;
    if failures.len() > 0 {
        Ok(VerdictModel::NewFailures(failures))
    } else if missing > code_num {
        Err(RepairRunModel::Retry(shards_message(missing, code_num as nat)))
    } else {
        Ok(VerdictModel::Usable)
    }
}

pub(crate) proof fn lemma_readable_len(segments: Seq<Segment>, unavailable: Seq<Segment>)
    ensures
        readable(segments, unavailable).len() <= segments.len(),
    decreases segments.len(),
{
    if segments.len() > 0 {
        lemma_readable_len(segments.drop_last(), unavailable);
    }
}

/// The strip with further segments marked.
pub open spec fn with_failures(strip: StripModel, failures: Seq<Segment>) -> StripModel {
    StripModel {
        unavailable_segments: stable_sorted(
            strip.unavailable_segments + distinct_without(failures, strip.unavailable_segments),
        ),
        ..strip
    }
}

/// Disks of a run of segments.
pub open spec fn disks_of(segments: Seq<Segment>) -> Seq<DiskId>
    decreases segments.len(),
{
    if segments.len() == 0 {
        Seq::empty()
    } else {
        match segments.last().disk_id {
            Some(disk) => disks_of(segments.drop_last()).push(disk),
            None => disks_of(segments.drop_last()),
        }
    }
}

/// Disks of a run of segments.
pub fn segment_disks(segments: &[Segment]) -> (r: Vec<DiskId>)
    ensures
        r@ == disks_of(segments@),
{
    let mut out: Vec<DiskId> = Vec::new();
    let mut i: usize = 0;
    while i < segments.len()
        invariant
            i <= segments.len(),
            out@ == disks_of(segments@.take(i as int)),
        decreases segments.len() - i,
    {
        proof {
            assert(segments@.take(i + 1).drop_last() =~= segments@.take(i as int));
            assert(segments@.take(i + 1).last() == segments@[i as int]);
        }
        match segments[i].disk_id {
            Some(disk) => {
                out.push(disk);
            },
            None => {},
        }
        i = i + 1;
    }
    assert(segments@.take(i as int) =~= segments@);
    out
}

/// What the next replacement segment has to keep clear of.
#[derive(Debug)]
pub struct PlacementInputs {
    pub surviving: Vec<Segment>,
    /// Disks of every segment of the strip, old and new: no two shards of one
    /// strip share a disk.
    pub excluded: Vec<DiskId>,
}

/// The strip with the first `n` failed segments replaced, each at its first
/// place; none where one of them is not there.
pub open spec fn replaced_through(
    strip: StripModel,
    failed: Seq<Segment>,
    fresh: Seq<Segment>,
    n: int,
) -> Option<StripModel>
    decreases n,
{
    if n <= 0 {
        Some(strip)
    } else {
        match replaced_through(strip, failed, fresh, n - 1) {
            None => None,
            Some(current) => if current.segments().contains(failed[n - 1]) {
                Some(
                    with_segment(
                        current,
                        first_index(current.segments(), failed[n - 1]),
                        fresh[n - 1],
                    ),
                )
            } else {
                None
            },
        }
    }
}

/// The repaired strip: every failed segment replaced, and its mark gone.
pub open spec fn repaired(strip: StripModel, failed: Seq<Segment>, fresh: Seq<Segment>) -> Result<
    StripModel,
    RepairRunModel,
> {
    match replaced_through(strip, failed, fresh, failed.len() as int) {
        Some(next) => Ok(
            StripModel {
                unavailable_segments: readable(strip.unavailable_segments, failed),
                ..next
            },
        ),
        None => Err(
            RepairRunModel::Permanent(
                if strip.strip is None {
                    "strip has no body"@
                } else {
                    "failed segment disappeared"@
                },
            ),
        ),
    }
}

proof fn lemma_replaced_keeps(strip: StripModel, failed: Seq<Segment>, fresh: Seq<Segment>, n: int)
    ensures
        replaced_through(strip, failed, fresh, n) matches Some(next) ==> {
            &&& next.segments().len() == strip.segments().len()
            &&& (next.strip is None) == (strip.strip is None)
            &&& next == StripModel { strip: next.strip, ..strip }
        },
    decreases n,
{
    if n > 0 {
        lemma_replaced_keeps(strip, failed, fresh, n - 1);
        match replaced_through(strip, failed, fresh, n - 1) {
            Some(current) => {
                if current.segments().contains(failed[n - 1]) {
                    let k = lemma_first_exists(current.segments(), failed[n - 1], 0);
                    lemma_first_index(current.segments(), failed[n - 1], k);
                }
            },
            None => {},
        }
    }
}

proof fn lemma_replaced_none(strip: StripModel, failed: Seq<Segment>, fresh: Seq<Segment>, n: int, m: int)
    requires
        0 <= n <= m,
        replaced_through(strip, failed, fresh, n) is None,
    ensures
        replaced_through(strip, failed, fresh, m) is None,
    decreases m - n,
{
    if n < m {
        lemma_replaced_none(strip, failed, fresh, n, m - 1);
    }
}

/// The place of a segment that is there.
pub(crate) proof fn lemma_first_index(segments: Seq<Segment>, segment: Segment, k: int)
    requires
        first_at(segments, segment, k),
    ensures
        first_index(segments, segment) == k,
{
    let chosen = first_index(segments, segment);
    assert(first_at(segments, segment, chosen));
    if chosen < k {
        assert(segments[chosen] != segment);
    }
    if k < chosen {
        assert(segments[k] != segment);
    }
}

pub(crate) proof fn lemma_first_exists(segments: Seq<Segment>, segment: Segment, from: int) -> (k: int)
    requires
        0 <= from <= segments.len(),
        segments.contains(segment),
        forall|j: int| 0 <= j < from ==> segments[j] != segment,
    ensures
        first_at(segments, segment, k),
    decreases segments.len() - from,
{
    if from < segments.len() && segments[from] == segment {
        from
    } else {
        if from == segments.len() {
            let k = choose|k: int| 0 <= k < segments.len() && segments[k] == segment;
            assert(segments[k] != segment);
        }
        lemma_first_exists(segments, segment, from + 1)
    }
}

/// A repair changes only the failed segments of a strip: its number of segments
/// and every other segment stay.
pub proof fn law_repair_keeps_survivors(
    strip: StripModel,
    failed: Seq<Segment>,
    fresh: Seq<Segment>,
    n: int,
    i: int,
)
    requires
        0 <= n <= failed.len(),
        0 <= i < strip.segments().len(),
        !failed.contains(strip.segments()[i]),
    ensures
        replaced_through(strip, failed, fresh, n) matches Some(next) ==> next.segments().len()
            == strip.segments().len() && next.segments()[i] == strip.segments()[i],
    decreases n,
{
    lemma_replaced_keeps(strip, failed, fresh, n);
    if n > 0 {
        law_repair_keeps_survivors(strip, failed, fresh, n - 1, i);
        lemma_replaced_keeps(strip, failed, fresh, n - 1);
        match replaced_through(strip, failed, fresh, n - 1) {
            Some(current) => {
                if current.segments().contains(failed[n - 1]) {
                    let k = lemma_first_exists(current.segments(), failed[n - 1], 0);
                    lemma_first_index(current.segments(), failed[n - 1], k);
                    assert(failed.contains(failed[n - 1]));
                    assert(k != i);
                }
            },
            None => {},
        }
    }
}

/// A repaired strip holds none of the failed segments and no mark of one, where
/// its segments were distinct, each failed one was named once and nothing is
/// replaced by a failed segment.
pub proof fn law_repair_removes_failed(strip: StripModel, failed: Seq<Segment>, fresh: Seq<Segment>)
    requires
        failed.len() == fresh.len(),
        strip.segments().no_duplicates(),
        failed.no_duplicates(),
        forall|i: int| 0 <= i < fresh.len() ==> !failed.contains(#[trigger] fresh[i]),
    ensures
        repaired(strip, failed, fresh) matches Ok(next) ==> forall|i: int|
            0 <= i < failed.len() ==> !next.segments().contains(#[trigger] failed[i])
                && !next.unavailable_segments.contains(failed[i]),
{
    let n = failed.len() as int;
    match replaced_through(strip, failed, fresh, n) {
        Some(next) => {
            lemma_repair_removes(strip, failed, fresh, n);
            assert(failed.take(n) =~= failed);
            assert forall|i: int| 0 <= i < failed.len() implies !next.segments().contains(
                #[trigger] failed[i],
            ) && !readable(strip.unavailable_segments, failed).contains(failed[i]) by {
                lemma_readable_contains(strip.unavailable_segments, failed, failed[i]);
                if next.segments().contains(failed[i]) {
                    let k = choose|k: int|
                        0 <= k < next.segments().len() && next.segments()[k] == failed[i];
                    assert(next.segments()[k] == failed[i]);
                }
            }
        },
        None => {},
    }
}

/// The readable segments are those that are not marked.
pub proof fn lemma_readable_contains(segments: Seq<Segment>, unavailable: Seq<Segment>, segment: Segment)
    ensures
        readable(segments, unavailable).contains(segment) <==> segments.contains(segment)
            && !unavailable.contains(segment),
    decreases segments.len(),
{
    if segments.len() > 0 {
        let front = segments.drop_last();
        let kept = readable(front, unavailable);
        let all = readable(segments, unavailable);
        lemma_readable_contains(front, unavailable, segment);
        assert(segments[segments.len() - 1] == segments.last());
        if segments.contains(segment) {
            let k = choose|k: int| 0 <= k < segments.len() && segments[k] == segment;
            if k < front.len() {
                assert(front[k] == segment);
            }
        }
        if front.contains(segment) {
            let k = choose|k: int| 0 <= k < front.len() && front[k] == segment;
            assert(segments[k] == segment);
        }
        if kept.contains(segment) {
            let k = choose|k: int| 0 <= k < kept.len() && kept[k] == segment;
            assert(all[k] == segment);
        }
        if all.contains(segment) {
            let k = choose|k: int| 0 <= k < all.len() && all[k] == segment;
            if k < kept.len() {
                assert(kept[k] == segment);
            }
        }
        if !unavailable.contains(segments.last()) {
            assert(all[kept.len() as int] == segments.last());
        }
    }
}

/// After `n` replacements every place holds its own segment, which is none of
/// the replaced ones, or a fresh one.
proof fn lemma_repair_removes(strip: StripModel, failed: Seq<Segment>, fresh: Seq<Segment>, n: int)
    requires
        0 <= n <= failed.len(),
        failed.len() == fresh.len(),
        strip.segments().no_duplicates(),
        failed.no_duplicates(),
        forall|i: int| 0 <= i < fresh.len() ==> !failed.contains(#[trigger] fresh[i]),
    ensures
        replaced_through(strip, failed, fresh, n) matches Some(next) ==> {
            &&& next.segments().len() == strip.segments().len()
            &&& forall|k: int|
                0 <= k < next.segments().len() ==> {
                    let held = #[trigger] next.segments()[k];
                    ||| !failed.contains(held)
                    ||| held == strip.segments()[k] && !failed.take(n).contains(held)
                }
        },
    decreases n,
{
    lemma_replaced_keeps(strip, failed, fresh, n);
    if n == 0 {
        assert(failed.take(0) =~= Seq::<Segment>::empty());
    } else {
        lemma_repair_removes(strip, failed, fresh, n - 1);
        lemma_replaced_keeps(strip, failed, fresh, n - 1);
        match replaced_through(strip, failed, fresh, n - 1) {
            Some(current) => {
                let gone = failed[n - 1];
                if current.segments().contains(gone) {
                    let at = lemma_first_exists(current.segments(), gone, 0);
                    lemma_first_index(current.segments(), gone, at);
                    let next = with_segment(current, at, fresh[n - 1]);
                    assert(failed.contains(gone));
                    assert forall|k: int| 0 <= k < next.segments().len() implies ({
                        let held = #[trigger] next.segments()[k];
                        ||| !failed.contains(held)
                        ||| held == strip.segments()[k] && !failed.take(n).contains(held)
                    }) by {
                        if k != at {
                            let held = next.segments()[k];
                            assert(held == current.segments()[k]);
                            if failed.contains(held) {
                                assert(held == strip.segments()[k]);
                                assert(current.segments()[at] == gone);
                                assert(gone == strip.segments()[at]);
                                assert(held != gone);
                                if failed.take(n).contains(held) {
                                    let m = choose|m: int|
                                        0 <= m < failed.take(n).len() && failed.take(n)[m] == held;
                                    assert(m < n - 1);
                                    assert(failed.take(n - 1)[m] == held);
                                }
                            }
                        } else {
                            assert(next.segments()[k] == fresh[n - 1]);
                        }
                    }
                }
            },
            None => {},
        }
    }
}

/// What a repair moved.
#[derive(Debug, Clone, Copy, PartialEq, Eq, Structural)]
pub struct RepairStats {
    pub segments: u64,
    pub bytes: u64,
}

/// Runs strip repairs within a memory budget.
#[derive(Debug, Clone, Copy, PartialEq, Eq, Structural)]
pub struct RepairStripTaskHandler {
    pub memory_limit: usize,
    pub max_concurrency: usize,
    pub allow_unsafe_placement: bool,
}

impl RepairStripTaskHandler {
    /// A handler with a memory budget; at least one repair runs at a time.
    pub fn new(memory_bytes: usize, max_concurrency: usize, allow_unsafe_placement: bool) -> (r: Self)
        ensures
            r.memory_limit == memory_bytes,
            r.max_concurrency == (if max_concurrency == 0 {
                1
            } else {
                max_concurrency
            }),
            r.allow_unsafe_placement == allow_unsafe_placement,
    {
        RepairStripTaskHandler {
            memory_limit: memory_bytes,
            max_concurrency: if max_concurrency == 0 {
                1
            } else {
                max_concurrency
            },
            allow_unsafe_placement,
        }
    }

    /// Kind of the tasks that it runs.
    pub fn kind(&self) -> (r: TaskKind)
        ensures
            r == TaskKind::RepairStrip,
    {
        TaskKind::RepairStrip
    }

    /// Whether it can read checkpoints of a version.
    pub fn supports_version(&self, version: u16) -> (r: bool)
        ensures
            r == (version == REPAIR_STRIP_TASK_VERSION),
    {
        version == REPAIR_STRIP_TASK_VERSION
    }

    /// Decides what an attempt recovers.
    pub fn plan_recovery(&self, chunk: &Chunk, payload: &RepairStripTaskV1) -> (r: Result<
        Option<RecoveryPlan>,
        RepairRunError,
    >)
        ensures
            recovery_result(r) == recovery_of(chunk@, payload@, self.memory_limit),
    {
        let strip_index: usize = match find_sequence(&chunk.strips, payload.strip_sequence) {
            Some(index) => index,
            None => {
                return Ok(None);
            },
        };
        let strip = &chunk.strips[strip_index];
        assert(chunk@.strips[strip_index as int] == strip@);
        let segments = match strip_segments(strip) {
            Ok(segments) => segments,
            Err(error) => {
                return Err(error);
            },
        };
        let unavailable = segments_among(&strip.unavailable_segments, &segments);
        if unavailable.len() == 0 {
            return Ok(None);
        }
        let unit_bytes: u64 = strip.unit_kb as u64 * 1024;
        let shard_bytes: u64 = match segment_size(&segments[0], unit_bytes) {
            Ok(bytes) => bytes,
            Err(error) => {
                return Err(error);
            },
        };
        let parts: usize = sat_add_usize(segments.len(), 1);
        let required: u64 = match shard_bytes.checked_mul(parts as u64) {
            Some(required) => required,
            None => {
                return Err(permanent("repair memory calculation overflows"));
            },
        };
        if required > usize::MAX as u64 {
            return Err(permanent("repair memory calculation overflows"));
        }
        if required > self.memory_limit as u64 {
            return Err(
                RepairRunError::Retry(
                    text_two_numbers(
                        "repair requires ",
                        required,
                        " bytes but the limit is ",
                        self.memory_limit as u64,
                    ),
                ),
            );
        }
        if required > u32::MAX as u64 {
            return Err(permanent("repair memory exceeds semaphore"));
        }
        Ok(
            Some(
                RecoveryPlan {
                    strip_index,
                    segments,
                    unavailable,
                    unit_bytes,
                    shard_bytes,
                    required: required as u32,
                },
            ),
        )
    }

    /// Judges the reads of a mirrored strip. The copies are tried in order until
    /// one can be read; `read` says of each of them whether its data is there.
    /// Marked segments are not tried.
    pub fn judge_mirror_reads(segments: &[Segment], unavailable: &[Segment], read: &[bool]) -> (r: Result<
        ReadVerdict,
        RepairRunError,
    >)
        requires
            read@.len() <= segments@.len(),
        ensures
            verdict_result(r) == mirror_verdict(segments@, unavailable@, read@),
    {
        let missed = unread_segments(segments, read);
        let failures = segments_without(&missed, unavailable);
        if failures.len() > 0 {
            return Ok(ReadVerdict::NewFailures(failures));
        }
        let mut i: usize = 0;
        while i < read.len()
            invariant
                i <= read@.len(),
                forall|j: int| 0 <= j < i ==> !read@[j],
                mirror_verdict(segments@, unavailable@, read@) == (if read@.contains(true) {
                    Ok::<VerdictModel, RepairRunModel>(VerdictModel::Usable)
                } else {
                    Err(RepairRunModel::Retry("no readable mirror remains"@))
                }),
            decreases read.len() - i,
        {
            if read[i] {
                assert(read@[i as int]);
                return Ok(ReadVerdict::Usable);
            }
            i = i + 1;
        }
        Err(RepairRunError::Retry(text("no readable mirror remains")))
    }

    /// Checks that an erasure-coded strip can be recovered at all.
    pub fn check_ec(ec: &EcStrip, segments: usize) -> (r: Result<(), RepairRunError>)
        ensures
            match r {
                Ok(_) => ec.ec_state == EcState::Parity && ec.data_num != 0 && ec.code_num != 0
                    && segments == ec.data_num + ec.code_num,
                Err(error) => if ec.ec_state != EcState::Parity {
                    error@ == RepairRunModel::Retry("EC parity is incomplete"@)
                } else {
                    error@ == RepairRunModel::Permanent("invalid EC geometry"@) && (ec.data_num == 0
                        || ec.code_num == 0 || segments != ec.data_num + ec.code_num)
                },
            },
    {
        if ec.ec_state != EcState::Parity {
            return Err(RepairRunError::Retry(text("EC parity is incomplete")));
        }
        let total: u64 = ec.data_num as u64 + ec.code_num as u64;
        if ec.data_num == 0 || ec.code_num == 0 || segments as u64 != total {
            return Err(permanent("invalid EC geometry"));
        }
        Ok(())
    }

    /// Judges the reads of an erasure-coded strip: `read` says of each segment
    /// whether its data is there. Marked segments are not tried.
    pub fn judge_ec_reads(
        segments: &[Segment],
        unavailable: &[Segment],
        read: &[bool],
        code_num: u32,
    ) -> (r: Result<ReadVerdict, RepairRunError>)
        requires
            segments@.len() == read@.len(),
        ensures
            verdict_result(r) == ec_verdict(segments@, unavailable@, read@, code_num),
    {
        let missed = unread_segments(segments, read);
        assert(segments@.take(read@.len() as int) =~= segments@);
        let failures = segments_without(&missed, unavailable);
        if failures.len() > 0 {
            return Ok(ReadVerdict::NewFailures(failures));
        }
        let kept = readable_segments(segments, unavailable);
        proof {
            lemma_readable_len(segments@, unavailable@);
        }
        let missing: usize = segments.len() - kept.len();
        if missing as u64 > code_num as u64 {
            let mut message = text_two_numbers(
                "EC strip has ",
                missing as u64,
                " unavailable shards and ",
                code_num as u64,
            );
            message.append(" parity shards");
            return Err(RepairRunError::Retry(message));
        }
        Ok(ReadVerdict::Usable)
    }

    /// Marks further segments of a strip.
    pub fn mark_failures(strip: &ChunkStrip, failures: &[Segment]) -> (r: ChunkStrip)
        ensures
            r@ == with_failures(strip@, failures@),
    {
        let mut next = strip.clone();
        let mut marked = copy_segments(&strip.unavailable_segments);
        let mut more = segments_without(failures, &strip.unavailable_segments);
        marked.append(&mut more);
        next.unavailable_segments = sort_segments(&marked);
        next
    }

    /// What the next replacement segment has to keep clear of; `fresh` holds the
    /// replacements so far.
    pub fn placement_inputs(plan: &RecoveryPlan, fresh: &[Segment]) -> (r: PlacementInputs)
        ensures
            r.surviving@ == readable(plan.segments@, plan.unavailable@) + fresh@,
            r.excluded@ == disks_of(plan.segments@) + disks_of(fresh@),
    {
        let mut surviving = readable_segments(&plan.segments, &plan.unavailable);
        let mut more = copy_segments(fresh);
        surviving.append(&mut more);
        let mut excluded = segment_disks(&plan.segments);
        let mut fresh_disks = segment_disks(fresh);
        excluded.append(&mut fresh_disks);
        PlacementInputs { surviving, excluded }
    }

    /// The repaired strip.
    pub fn repaired_strip(strip: &ChunkStrip, failed: &[Segment], fresh: &[Segment]) -> (r: Result<
        ChunkStrip,
        RepairRunError,
    >)
        requires
            failed@.len() == fresh@.len(),
        ensures
            (match r {
                Ok(next) => Ok::<StripModel, RepairRunModel>(next@),
                Err(error) => Err(error@),
            }) == repaired(strip@, failed@, fresh@),
    {
        let mut next = strip.clone();
        let mut i: usize = 0;
        while i < failed.len()
            invariant
                i <= failed@.len(),
                failed@.len() == fresh@.len(),
                replaced_through(strip@, failed@, fresh@, i as int) == Some(next@),
            decreases failed.len() - i,
        {
            let segments = next.extract_segments();
            proof {
                lemma_replaced_keeps(strip@, failed@, fresh@, i as int);
            }
            match position_segment(&segments, &failed[i]) {
                Some(at) => {
                    proof {
                        assert(next@.segments()[at as int] == failed@[i as int]);
                        lemma_first_index(next@.segments(), failed@[i as int], at as int);
                    }
                    next = replace_segment(&next, at, fresh[i]);
                },
                None => {
                    proof {
                        assert(replaced_through(strip@, failed@, fresh@, i + 1) is None);
                        lemma_replaced_none(
                            strip@,
                            failed@,
                            fresh@,
                            i + 1,
                            failed@.len() as int,
                        );
                    }
                    return Err(
                        if strip.strip.is_none() {
                            permanent("strip has no body")
                        } else {
                            permanent("failed segment disappeared")
                        },
                    );
                },
            }
            i = i + 1;
        }
        next.unavailable_segments = readable_segments(&strip.unavailable_segments, failed);
        Ok(next)
    }

    /// What a finished repair moved.
    pub fn stats(plan: &RecoveryPlan) -> (r: RepairStats)
        ensures
            r.segments == plan.unavailable@.len(),
            r.bytes == clip_u64(plan.shard_bytes * plan.unavailable@.len()),
    {
        let segments: u64 = plan.unavailable.len() as u64;
        RepairStats { segments, bytes: sat_mul_u64(plan.shard_bytes, segments) }
    }

    /// How an attempt ends for its task.
    pub fn outcome(result: Result<RepairStats, RepairRunError>) -> (r: TaskOutcome)
        ensures
            r@ == (match result {
                Ok(_) => OutcomeModel::Complete,
                Err(error) => match error@ {
                    RepairRunModel::Permanent(message) => OutcomeModel::Fail {
                        error_code: 20,
                        error: message,
                    },
                    other => OutcomeModel::Retry {
                        delay_ms: REPAIR_RETRY_MS,
                        error_code: 21,
                        error: other.message(),
                    },
                },
            }),
    {
        match result {
            Ok(_) => TaskOutcome::Complete,
            Err(RepairRunError::Permanent(error)) => TaskOutcome::Fail { error_code: 20, error },
            Err(error) => TaskOutcome::Retry {
                delay_ms: REPAIR_RETRY_MS,
                error_code: 21,
                error: error.message(),
            },
        }
    }

    /// How a task ends that finds the handler stopped.
    pub fn stopped() -> (r: TaskOutcome)
        ensures
            r@ == (OutcomeModel::Retry {
                delay_ms: REPAIR_RETRY_MS,
                error_code: 22,
                error: "repair executor stopped"@,
            }),
    {
        TaskOutcome::Retry {
            delay_ms: REPAIR_RETRY_MS,
            error_code: 22,
            error: text("repair executor stopped"),
        }
    }
}

} // verus!
