//! Accounting and limits of the task scan.
use vstd::prelude::*;
use crate::arith::{max_u32, max_u64};

verus! {

/// What one scan did.
#[derive(Debug, Clone, Copy, PartialEq, Eq, Structural)]
pub struct TaskScanSummary {
    pub expired_claims_requeued: u64,
    pub ready_indexes_seen: u64,
    pub tasks_claimed: u64,
    pub tasks_completed_or_requeued: u64,
    pub dispatch_errors: u64,
}

impl Default for TaskScanSummary {
    fn default() -> (r: Self)
        ensures
            r == (TaskScanSummary {
                expired_claims_requeued: 0,
                ready_indexes_seen: 0,
                tasks_claimed: 0,
                tasks_completed_or_requeued: 0,
                dispatch_errors: 0,
            }),
    {
        TaskScanSummary {
            expired_claims_requeued: 0,
            ready_indexes_seen: 0,
            tasks_claimed: 0,
            tasks_completed_or_requeued: 0,
            dispatch_errors: 0,
        }
    }
}

/// Number of `true` values.
pub open spec fn count_true(values: Seq<bool>) -> nat
    decreases values.len(),
{
    if values.len() == 0 {
        0
    } else {
        count_true(values.drop_last()) + (if values.last() {
            1nat
        } else {
            0nat
        })
    }
}

fn count_of_true(values: &[bool]) -> (r: usize)
    ensures
        r == count_true(values@),
        r <= values@.len(),
{
    let mut count: usize = 0;
    let mut i: usize = 0;
    while i < values.len()
        invariant
            i <= values.len(),
            count <= i,
            count == count_true(values@.take(i as int)),
        decreases values.len() - i,
    {
        proof {
            assert(values@.take(i + 1).drop_last() =~= values@.take(i as int));
            assert(values@.take(i + 1).last() == values@[i as int]);
        }
        if values[i] {
            count = count + 1;
        }
        i = i + 1;
    }
    assert(values@.take(i as int) =~= values@);
    count
}

/// Limits of the scan.
#[derive(Debug, Clone, Copy, PartialEq, Eq, Structural)]
pub struct TaskScanner {
    pub scan_limit: u32,
    pub safety_interval_ms: u64,
}

impl TaskScanner {
    /// A scanner; both limits are at least one.
    pub fn new(scan_limit: u32, safety_interval_ms: u64) -> (r: Self)
        ensures
            r.scan_limit == (if scan_limit == 0 {
                1
            } else {
                scan_limit
            }),
            r.safety_interval_ms == (if safety_interval_ms == 0 {
                1
            } else {
                safety_interval_ms
            }),
    {
        TaskScanner {
            scan_limit: max_u32(scan_limit, 1),
            safety_interval_ms: max_u64(safety_interval_ms, 1),
        }
    }

    /// Whether another task may be claimed in this scan.
    pub fn may_claim(claimed: usize, capacity: usize) -> (r: bool)
        ensures
            r == (claimed < capacity),
    {
        claimed < capacity
    }

    /// What a scan did, from what became of the expired claims, the runnable
    /// entries seen, the claims made and the outcomes of their dispatch.
    pub fn summarize(
        requeued: &[bool],
        ready_seen: usize,
        claimed: usize,
        dispatched: &[bool],
    ) -> (r: TaskScanSummary)
        ensures
            r.expired_claims_requeued == count_true(requeued@),
            r.ready_indexes_seen == ready_seen,
            r.tasks_claimed == claimed,
            r.tasks_completed_or_requeued == count_true(dispatched@),
            r.dispatch_errors == dispatched@.len() - count_true(dispatched@),
    {
        let done: usize = count_of_true(dispatched);
        TaskScanSummary {
            expired_claims_requeued: count_of_true(requeued) as u64,
            ready_indexes_seen: ready_seen as u64,
            tasks_claimed: claimed as u64,
            tasks_completed_or_requeued: done as u64,
            dispatch_errors: (dispatched.len() - done) as u64,
        }
    }
}

} // verus!
