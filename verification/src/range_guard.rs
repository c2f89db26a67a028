//! Range guard: an instance only processes requests for chunks whose hash
//! bucket falls within its owned ranges.
use vstd::prelude::*;
use crate::order::{sort_stable, stable_sorted, SortKey};

verus! {

/// An owned hash bucket sub-range `[start, end]` (inclusive).
#[derive(Debug, Clone, Copy, PartialEq, Eq, Structural)]
pub struct OwnedRange {
    pub start: u16,
    pub end: u16,
    pub sub_range_index: u32,
}

impl OwnedRange {
    /// The range holds the bucket.
    pub open spec fn holds(self, bucket: u16) -> bool {
        self.start <= bucket <= self.end
    }

    /// Check if a bucket falls within this range `[start, end]`.
    pub fn contains(self, bucket: u16) -> (r: bool)
        ensures
            r == self.holds(bucket),
    {
        bucket >= self.start && bucket <= self.end
    }
}

impl SortKey for OwnedRange {
    open spec fn not_above(a: Self, b: Self) -> bool {
        a.start <= b.start
    }

    proof fn total(a: Self, b: Self) {
    }

    proof fn transitive(a: Self, b: Self, c: Self) {
    }

    fn key_not_above(a: &Self, b: &Self) -> (r: bool) {
        a.start <= b.start
    }
}

/// Error returned when a bucket is outside the instance's owned ranges.
#[derive(Debug, Clone, Copy, PartialEq, Eq, Structural)]
pub struct NotMyRange {
    pub bucket: u16,
}

impl NotMyRange {
    /// Text of the error.
    pub fn message(&self) -> (r: String)
        ensures
            r@ == "chunk bucket "@ + crate::text::decimal(self.bucket as nat)
                + " not in owned ranges"@,
    {
        crate::text::text_number_text("chunk bucket ", self.bucket as u64, " not in owned ranges")
    }
}

/// A stored assignment of a bucket range to an instance.
#[derive(Debug, Clone, Copy, PartialEq, Eq, Structural)]
pub struct RangeBindingValue {
    pub instance_id: u64,
    pub range_start: u32,
    pub range_end: u32,
    pub sub_range_index: u32,
}

impl RangeBindingValue {
    /// The range that the assignment gives: a start beyond the bucket space
    /// counts as 0, an end beyond it as the last bucket.
    pub open spec fn spec_range(self) -> OwnedRange {
        OwnedRange {
            start: if self.range_start <= u16::MAX {
                self.range_start as u16
            } else {
                0
            },
            end: if self.range_end <= u16::MAX {
                self.range_end as u16
            } else {
                u16::MAX
            },
            sub_range_index: self.sub_range_index,
        }
    }

    fn range(&self) -> (r: OwnedRange)
        ensures
            r == self.spec_range(),
    {
        OwnedRange {
            start: if self.range_start <= u16::MAX as u32 {
                self.range_start as u16
            } else {
                0
            },
            end: if self.range_end <= u16::MAX as u32 {
                self.range_end as u16
            } else {
                u16::MAX
            },
            sub_range_index: self.sub_range_index,
        }
    }
}

/// The ranges assigned to an instance, in stored order.
pub open spec fn assigned_ranges(values: Seq<RangeBindingValue>, instance_id: u64) -> Seq<OwnedRange>
    decreases values.len(),
{
    if values.len() == 0 {
        Seq::empty()
    } else if values.last().instance_id == instance_id {
        assigned_ranges(values.drop_last(), instance_id).push(values.last().spec_range())
    } else {
        assigned_ranges(values.drop_last(), instance_id)
    }
}

/// Some range holds the bucket.
pub open spec fn some_range_holds(ranges: Seq<OwnedRange>, bucket: u16) -> bool {
    exists|i: int| 0 <= i < ranges.len() && (#[trigger] ranges[i]).holds(bucket)
}

/// One page of a scan of the stored assignments.
#[derive(Debug)]
pub struct RangePage {
    pub values: Vec<RangeBindingValue>,
    /// Key of the last entry; none for an empty page.
    pub last_key: Option<Vec<u8>>,
    /// Whether entries follow.
    pub truncated: bool,
}

impl RangePage {
    /// The key after which the next page starts; none for the last page.
    pub open spec fn next_start(&self) -> Option<Seq<u8>> {
        match self.last_key {
            Some(key) => if self.truncated {
                Some(key@)
            } else {
                None
            },
            None => None,
        }
    }
}

/// A scan of the stored assignments for those of one instance.
#[derive(Debug)]
pub struct RangeScan {
    pub instance_id: u64,
    /// The assignments of the pages so far.
    pub values: Vec<RangeBindingValue>,
}

impl RangeScan {
    /// A scan before its first page, which starts at the first key.
    pub fn new(instance_id: u64) -> (r: Self)
        ensures
            r.instance_id == instance_id,
            r.values@ == Seq::<RangeBindingValue>::empty(),
    {
        RangeScan { instance_id, values: Vec::new() }
    }
}

/// What a page of a scan leads to.
#[derive(Debug, PartialEq, Eq)]
pub enum RangeScanStep {
    /// Read the page after this key.
    Next(Vec<u8>),
    /// The scan is complete and the ranges are loaded.
    Loaded,
    /// The scan failed and the ranges are as before.
    Failed(String),
}

/// Range guard: checks buckets against this instance's owned hash bucket
/// ranges.
///
/// When `allow_all_when_empty` is `true`, an empty guard allows all requests.
/// When `false`, an empty guard rejects all mutating requests until ranges are
/// loaded.
#[derive(Debug)]
pub struct RangeGuard {
    owned: Vec<OwnedRange>,
    allow_all_when_empty: bool,
}

impl RangeGuard {
    /// The loaded ranges, ordered by start.
    pub closed spec fn ranges(&self) -> Seq<OwnedRange> {
        self.owned@
    }

    /// Whether the guard lets everything pass while it has no ranges.
    pub closed spec fn open_when_empty(&self) -> bool {
        self.allow_all_when_empty
    }

    /// The guard lets the bucket pass.
    pub open spec fn admits(&self, bucket: u16) -> bool {
        if self.ranges().len() == 0 {
            self.open_when_empty()
        } else {
            some_range_holds(self.ranges(), bucket)
        }
    }

    /// Create a new empty range guard.
    pub fn new(allow_all_when_empty: bool) -> (r: Self)
        ensures
            r.ranges() == Seq::<OwnedRange>::empty(),
            r.open_when_empty() == allow_all_when_empty,
    {
        RangeGuard { owned: Vec::new(), allow_all_when_empty }
    }

    /// Create a guard that allows all requests: no ranges loaded, open.
    pub fn allow_all() -> (r: Self)
        ensures
            r.ranges() == Seq::<OwnedRange>::empty(),
            r.open_when_empty(),
    {
        Self::new(true)
    }

    /// Check if a chunk's bucket is within owned ranges.
    pub fn check(&self, bucket: u16) -> (r: Result<(), NotMyRange>)
        ensures
            r == (if self.admits(bucket) {
                Ok(())
            } else {
                Err(NotMyRange { bucket })
            }),
    {
        if self.owned.len() == 0 {
            if self.allow_all_when_empty {
                return Ok(());
            }
            return Err(NotMyRange { bucket });
        }
        let mut i: usize = 0;
        while i < self.owned.len()
            invariant
                i <= self.owned.len(),
                forall|j: int| 0 <= j < i ==> !(#[trigger] self.ranges()[j]).holds(bucket),
            decreases self.owned.len() - i,
        {
            if self.owned[i].contains(bucket) {
                assert(self.ranges()[i as int].holds(bucket));
                return Ok(());
            }
            i = i + 1;
        }
        Err(NotMyRange { bucket })
    }

    /// Replace the owned ranges.
    pub fn replace(&mut self, ranges: Vec<OwnedRange>)
        ensures
            final(self).ranges() == stable_sorted(ranges@),
            final(self).open_when_empty() == old(self).open_when_empty(),
    {
        self.owned = sort_stable(ranges);
    }

    /// Take the next page of a scan of the stored assignments, or its failure.
    /// The ranges of the scan's instance are loaded once the last page is in;
    /// until then, and where a page fails, the owned ranges stay as they are.
    pub fn load_from_group0(&mut self, scan: &mut RangeScan, page: Result<RangePage, String>) -> (r:
        RangeScanStep)
        ensures
            final(self).open_when_empty() == old(self).open_when_empty(),
            final(scan).instance_id == old(scan).instance_id,
            match page {
                Err(error) => r matches RangeScanStep::Failed(reason) && reason@ == error@
                    && final(self).ranges() == old(self).ranges() && final(scan).values@ == old(
                    scan,
                ).values@,
                Ok(page) => {
                    &&& final(scan).values@ == old(scan).values@ + page.values@
                    &&& match page.next_start() {
                        Some(key) => r matches RangeScanStep::Next(start_after) && start_after@ == key
                            && final(self).ranges() == old(self).ranges(),
                        None => r is Loaded && final(self).ranges() == stable_sorted(
                            assigned_ranges(final(scan).values@, final(scan).instance_id),
                        ),
                    }
                },
            },
    {
        let mut page = match page {
            Ok(page) => page,
            Err(error) => {
                return RangeScanStep::Failed(error);
            },
        };
        scan.values.append(&mut page.values);
        if page.truncated {
            match page.last_key {
                Some(key) => {
                    return RangeScanStep::Next(key);
                },
                None => {},
            }
        }
        let instance_id: u64 = scan.instance_id;
        let mut ranges: Vec<OwnedRange> = Vec::new();
        let mut i: usize = 0;
        while i < scan.values.len()
            invariant
                i <= scan.values.len(),
                ranges@ == assigned_ranges(scan.values@.take(i as int), instance_id),
            decreases scan.values.len() - i,
        {
            proof {
                assert(scan.values@.take(i + 1).drop_last() =~= scan.values@.take(i as int));
            }
            if scan.values[i].instance_id == instance_id {
                ranges.push(scan.values[i].range());
            }
            i = i + 1;
        }
        assert(scan.values@.take(i as int) =~= scan.values@);
        self.owned = sort_stable(ranges);
        RangeScanStep::Loaded
    }

    /// Get a snapshot of the owned ranges.
    pub fn snapshot(&self) -> (r: Vec<OwnedRange>)
        ensures
            r@ == self.ranges(),
    {
        let mut out: Vec<OwnedRange> = Vec::new();
        let mut i: usize = 0;
        while i < self.owned.len()
            invariant
                i <= self.owned.len(),
                out@ == self.owned@.take(i as int),
            decreases self.owned.len() - i,
        {
            out.push(self.owned[i]);
            assert(self.owned@.take(i + 1) =~= self.owned@.take(i as int).push(
                self.owned@[i as int],
            ));
            i = i + 1;
        }
        assert(self.owned@.take(i as int) =~= self.owned@);
        out
    }

    /// Check if the guard has no owned ranges loaded.
    pub fn is_empty(&self) -> (r: bool)
        ensures
            r == (self.ranges().len() == 0),
    {
        self.owned.len() == 0
    }
}

proof fn lemma_assigned(values: Seq<RangeBindingValue>, instance_id: u64, i: int)
    requires
        0 <= i < values.len(),
        values[i].instance_id == instance_id,
    ensures
        assigned_ranges(values, instance_id).contains(values[i].spec_range()),
    decreases values.len(),
{
    let all = assigned_ranges(values, instance_id);
    let front = assigned_ranges(values.drop_last(), instance_id);
    if i < values.len() - 1 {
        lemma_assigned(values.drop_last(), instance_id, i);
        let k = choose|k: int| 0 <= k < front.len() && front[k] == values[i].spec_range();
        assert(all[k] == values[i].spec_range());
    } else {
        assert(all[front.len() as int] == values[i].spec_range());
    }
}

proof fn lemma_assigned_source(values: Seq<RangeBindingValue>, instance_id: u64, k: int) -> (i: int)
    requires
        0 <= k < assigned_ranges(values, instance_id).len(),
    ensures
        0 <= i < values.len(),
        values[i].instance_id == instance_id,
        values[i].spec_range() == assigned_ranges(values, instance_id)[k],
    decreases values.len(),
{
    let front = assigned_ranges(values.drop_last(), instance_id);
    if k < front.len() {
        lemma_assigned_source(values.drop_last(), instance_id, k)
    } else {
        values.len() - 1
    }
}

/// A completed scan owns the range of every assignment of the instance, on
/// whichever page it came, and no range of another instance.
pub proof fn law_every_assignment_is_loaded(
    values: Seq<RangeBindingValue>,
    instance_id: u64,
    range: OwnedRange,
)
    ensures
        stable_sorted(assigned_ranges(values, instance_id)).contains(range) <==> exists|i: int|
            0 <= i < values.len() && (#[trigger] values[i]).instance_id == instance_id
                && values[i].spec_range() == range,
{
    let ranges = assigned_ranges(values, instance_id);
    crate::order::lemma_stable_sorted(ranges);
    let sorted = stable_sorted(ranges);
    if sorted.contains(range) {
        assert(ranges.contains(range));
        let k = choose|k: int| 0 <= k < ranges.len() && ranges[k] == range;
        let i = lemma_assigned_source(values, instance_id, k);
        assert(values[i].spec_range() == range);
    }
    if exists|i: int|
        0 <= i < values.len() && (#[trigger] values[i]).instance_id == instance_id
            && values[i].spec_range() == range {
        let i = choose|i: int|
            0 <= i < values.len() && (#[trigger] values[i]).instance_id == instance_id
                && values[i].spec_range() == range;
        lemma_assigned(values, instance_id, i);
        assert(sorted.contains(range));
    }
}

/// Which buckets a guard holds does not depend on the order in which its
/// ranges were given.
pub proof fn law_order_of_ranges_is_irrelevant(ranges: Seq<OwnedRange>, bucket: u16)
    ensures
        some_range_holds(stable_sorted(ranges), bucket) == some_range_holds(ranges, bucket),
{
    crate::order::lemma_stable_sorted(ranges);
    let sorted = stable_sorted(ranges);
    if some_range_holds(ranges, bucket) {
        let i = choose|i: int| 0 <= i < ranges.len() && (#[trigger] ranges[i]).holds(bucket);
        assert(sorted.contains(ranges[i]));
        let k = choose|k: int| 0 <= k < sorted.len() && sorted[k] == ranges[i];
        assert(sorted[k].holds(bucket));
    }
    if some_range_holds(sorted, bucket) {
        let i = choose|i: int| 0 <= i < sorted.len() && (#[trigger] sorted[i]).holds(bucket);
        assert(sorted.contains(sorted[i]));
        let k = choose|k: int| 0 <= k < ranges.len() && ranges[k] == sorted[i];
        assert(ranges[k].holds(bucket));
    }
}

/// A guard admits a bucket exactly where one of its ranges begins at or before it
/// and ends at or behind it; a guard without ranges admits all buckets or none.
pub proof fn law_guard_admits_its_ranges(guard: &RangeGuard, bucket: u16)
    ensures
        guard.ranges().len() > 0 ==> (guard.admits(bucket) <==> exists|i: int|
            0 <= i < guard.ranges().len() && (#[trigger] guard.ranges()[i]).start <= bucket
                && bucket <= guard.ranges()[i].end),
        guard.ranges().len() == 0 ==> guard.admits(bucket) == guard.open_when_empty(),
{
    if some_range_holds(guard.ranges(), bucket) {
        let i = choose|i: int|
            0 <= i < guard.ranges().len() && (#[trigger] guard.ranges()[i]).holds(bucket);
        assert(guard.ranges()[i].start <= bucket);
    }
    if exists|i: int|
        0 <= i < guard.ranges().len() && (#[trigger] guard.ranges()[i]).start <= bucket && bucket
            <= guard.ranges()[i].end {
        let i = choose|i: int|
            0 <= i < guard.ranges().len() && (#[trigger] guard.ranges()[i]).start <= bucket
                && bucket <= guard.ranges()[i].end;
        assert(guard.ranges()[i].holds(bucket));
    }
}

/// The ranges of an instance are those of its own assignments, as they are stored
/// where they fit, and up to the last bucket where they end behind it.
pub proof fn law_ranges_are_the_assignments(values: Seq<RangeBindingValue>, instance_id: u64)
    ensures
        assigned_ranges(values, instance_id) == values.filter(
            |value: RangeBindingValue| value.instance_id == instance_id,
        ).map_values(|value: RangeBindingValue| value.spec_range()),
        forall|value: RangeBindingValue|
            value.range_start <= u16::MAX ==> (#[trigger] value.spec_range()).start
                == value.range_start,
        forall|value: RangeBindingValue|
            value.range_end <= u16::MAX ==> (#[trigger] value.spec_range()).end == value.range_end,
        forall|value: RangeBindingValue|
            value.range_end > u16::MAX ==> (#[trigger] value.spec_range()).end == 65535,
        forall|value: RangeBindingValue|
            (#[trigger] value.spec_range()).sub_range_index == value.sub_range_index,
    decreases values.len(),
{
    reveal(Seq::filter);
    let own = |value: RangeBindingValue| value.instance_id == instance_id;
    let range = |value: RangeBindingValue| value.spec_range();
    if values.len() > 0 {
        law_ranges_are_the_assignments(values.drop_last(), instance_id);
        let front = values.drop_last().filter(own);
        if own(values.last()) {
            assert(front.push(values.last()).map_values(range) =~= front.map_values(range).push(
                range(values.last()),
            ));
        }
    }
    assert(assigned_ranges(values, instance_id) =~= values.filter(own).map_values(range));
}

} // verus!
