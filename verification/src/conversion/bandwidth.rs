//! Pacing of background transfers.
use vstd::prelude::*;
use crate::arith::{clip_u64, max_u64, sat_add_u64, sat_mul_u64};

verus! {

/// Nanoseconds of a second.
pub const NS_PER_SECOND: u64 = 1_000_000_000;

/// Spaces transfers so that a byte rate holds. Times are nanoseconds since the
/// limiter was made.
#[derive(Debug, Clone, Copy, PartialEq, Eq, Structural)]
pub struct BandwidthLimiter {
    pub bytes_per_second: u64,
    pub next_available_ns: u64,
}

/// How long a transfer takes at a byte rate, rounded up.
pub open spec fn duration_of(bytes: u64, bytes_per_second: u64) -> u64 {
    (clip_u64(clip_u64(bytes * NS_PER_SECOND) + bytes_per_second - 1) as int / bytes_per_second as int) as u64
}

/// When the next transfer may start.
pub open spec fn start_of(limiter: BandwidthLimiter, now_ns: u64) -> u64 {
    if limiter.next_available_ns >= now_ns {
        limiter.next_available_ns
    } else {
        now_ns
    }
}

impl BandwidthLimiter {
    /// A limiter with a byte rate of at least one byte a second.
    pub fn new(bytes_per_second: u64) -> (r: Self)
        ensures
            r.bytes_per_second == (if bytes_per_second == 0 {
                1
            } else {
                bytes_per_second
            }),
            r.next_available_ns == 0,
    {
        BandwidthLimiter { bytes_per_second: max_u64(bytes_per_second, 1), next_available_ns: 0 }
    }

    /// Books a transfer and gives the nanoseconds to wait before it starts.
    pub fn acquire(&mut self, bytes: u64, now_ns: u64) -> (r: u64)
        requires
            old(self).bytes_per_second > 0,
        ensures
            final(self).bytes_per_second == old(self).bytes_per_second,
            final(self).next_available_ns == clip_u64(
                start_of(*old(self), now_ns) + duration_of(bytes, old(self).bytes_per_second),
            ),
            r == start_of(*old(self), now_ns) - now_ns,
    {
        let scaled: u64 = sat_add_u64(
            sat_mul_u64(bytes, NS_PER_SECOND),
            self.bytes_per_second - 1,
        );
        let duration: u64 = scaled / self.bytes_per_second;
        let start: u64 = max_u64(self.next_available_ns, now_ns);
        self.next_available_ns = sat_add_u64(start, duration);
        start - now_ns
    }
}

/// A transfer is given the time that its bytes take at the configured rate, as
/// far as the times can be told.
pub proof fn law_transfer_keeps_rate(bytes: u64, bytes_per_second: u64)
    requires
        bytes_per_second > 0,
        bytes * NS_PER_SECOND + bytes_per_second - 1 <= u64::MAX,
    ensures
        bytes * NS_PER_SECOND <= duration_of(bytes, bytes_per_second) * bytes_per_second,
{
    let scaled = bytes * NS_PER_SECOND + bytes_per_second - 1;
    let rate = bytes_per_second as int;
    vstd::arithmetic::div_mod::lemma_fundamental_div_mod(scaled, rate);
    vstd::arithmetic::div_mod::lemma_mod_bound(scaled, rate);
    vstd::arithmetic::div_mod::lemma_div_pos_is_pos(scaled, rate);
    vstd::arithmetic::div_mod::lemma_div_is_ordered_by_denominator(scaled, 1, rate);
    assert(scaled / 1 == scaled);
    assert((scaled / rate) * rate == rate * (scaled / rate)) by (nonlinear_arith);
}

/// Whatever is booked next starts no earlier than the transfer before it ends.
pub proof fn law_transfers_do_not_overlap(limiter: BandwidthLimiter, bytes: u64, now_ns: u64, later_ns: u64)
    requires
        start_of(limiter, now_ns) + duration_of(bytes, limiter.bytes_per_second) <= u64::MAX,
    ensures
        start_of(
            BandwidthLimiter {
                next_available_ns: clip_u64(
                    start_of(limiter, now_ns) + duration_of(bytes, limiter.bytes_per_second),
                ),
                ..limiter
            },
            later_ns,
        ) >= start_of(limiter, now_ns) + duration_of(bytes, limiter.bytes_per_second),
{
}

/// A transfer takes no more time than it needs: one nanosecond less would exceed the
/// rate.
pub proof fn law_transfer_wastes_no_time(bytes: u64, bytes_per_second: u64)
    requires
        bytes > 0,
        bytes_per_second > 0,
        bytes * NS_PER_SECOND + bytes_per_second - 1 <= u64::MAX,
    ensures
        (duration_of(bytes, bytes_per_second) - 1) * bytes_per_second < bytes * NS_PER_SECOND,
        NS_PER_SECOND == 1_000_000_000,
{
    let scaled = bytes * NS_PER_SECOND + bytes_per_second - 1;
    let rate = bytes_per_second as int;
    vstd::arithmetic::div_mod::lemma_fundamental_div_mod(scaled, rate);
    vstd::arithmetic::div_mod::lemma_mod_bound(scaled, rate);
    vstd::arithmetic::div_mod::lemma_div_pos_is_pos(scaled, rate);
    vstd::arithmetic::div_mod::lemma_div_is_ordered_by_denominator(scaled, 1, rate);
    assert(scaled / 1 == scaled);
    let q = scaled / rate;
    assert((q - 1) * rate < bytes * NS_PER_SECOND) by (nonlinear_arith)
        requires
            scaled == rate * q + scaled % rate,
            0 <= scaled % rate < rate,
            scaled == bytes * NS_PER_SECOND + rate - 1,
    ;
}

/// A transfer starts now, or where the transfers before it end, whichever is later.
pub proof fn law_transfers_start_when_free(limiter: BandwidthLimiter, now_ns: u64)
    ensures
        start_of(limiter, now_ns) >= now_ns,
        start_of(limiter, now_ns) >= limiter.next_available_ns,
        start_of(limiter, now_ns) == now_ns || start_of(limiter, now_ns)
            == limiter.next_available_ns,
{
}

} // verus!
