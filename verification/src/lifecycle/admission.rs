//! Admission of reservations by blocks and bytes.
use vstd::prelude::*;
use crate::arith::{clip_u64, sat_sub_u64};

verus! {

/// Limits and use of the reservation capacity.
#[derive(Debug, Clone, Copy, PartialEq, Eq, Structural)]
pub struct ReservationAdmission {
    pub max_blocks: u64,
    pub max_bytes: u64,
    pub blocks: u64,
    pub bytes: u64,
    /// Requests that were turned away.
    pub rejections: u64,
}

/// Capacity that was granted to one reservation. It goes back unless the
/// reservation is retained.
#[derive(Debug)]
pub struct ReservationPermit {
    pub blocks: u64,
    pub bytes: u64,
}

/// The counter can take `delta` more within the limit.
pub open spec fn fits(counter: u64, delta: u64, limit: u64) -> bool {
    counter + delta <= u64::MAX && counter + delta <= limit
}

/// Takes `delta` from the limit, if it fits.
pub fn reserve(counter: &mut u64, delta: u64, limit: u64) -> (r: bool)
    ensures
        r == fits(*old(counter), delta, limit),
        *final(counter) == (if r {
            (*old(counter) + delta) as u64
        } else {
            *old(counter)
        }),
{
    if delta > u64::MAX - *counter {
        return false;
    }
    if *counter + delta > limit {
        return false;
    }
    *counter = *counter + delta;
    true
}

/// Gives `delta` back; a counter stops at zero.
pub fn release(counter: &mut u64, delta: u64)
    ensures
        *final(counter) == clip_u64(*old(counter) - delta),
{
    *counter = sat_sub_u64(*counter, delta);
}

impl ReservationAdmission {
    /// Nothing is in use.
    pub fn new(max_blocks: u64, max_bytes: u64) -> (r: Self)
        ensures
            r == (ReservationAdmission { max_blocks, max_bytes, blocks: 0, bytes: 0, rejections: 0 }),
    {
        ReservationAdmission { max_blocks, max_bytes, blocks: 0, bytes: 0, rejections: 0 }
    }

    /// Set other limits; what is in use stays.
    pub fn update_limits(&mut self, max_blocks: u64, max_bytes: u64)
        ensures
            *final(self) == (ReservationAdmission { max_blocks, max_bytes, ..*old(self) }),
    {
        self.max_blocks = max_blocks;
        self.max_bytes = max_bytes;
    }

    /// Set what is in use, as found in the stored reservations.
    pub fn rebuild(&mut self, blocks: u64, bytes: u64)
        ensures
            *final(self) == (ReservationAdmission { blocks, bytes, ..*old(self) }),
    {
        self.blocks = blocks;
        self.bytes = bytes;
    }

    /// The request fits both limits.
    pub open spec fn admits(self, blocks: u64, bytes: u64) -> bool {
        fits(self.blocks, blocks, self.max_blocks) && fits(self.bytes, bytes, self.max_bytes)
    }

    /// What is left to use once the request is granted.
    pub open spec fn granted(self, blocks: u64, bytes: u64) -> ReservationAdmission {
        ReservationAdmission {
            blocks: (self.blocks + blocks) as u64,
            bytes: (self.bytes + bytes) as u64,
            ..self
        }
    }

    /// What is left to use once capacity is given back.
    pub open spec fn released(self, blocks: u64, bytes: u64) -> ReservationAdmission {
        ReservationAdmission {
            blocks: clip_u64(self.blocks - blocks),
            bytes: clip_u64(self.bytes - bytes),
            ..self
        }
    }

    /// Grant a request that fits both limits; otherwise nothing is taken.
    pub fn try_acquire(&mut self, blocks: u64, bytes: u64) -> (r: Option<ReservationPermit>)
        ensures
            match r {
                Some(permit) => old(self).admits(blocks, bytes) && permit.blocks == blocks
                    && permit.bytes == bytes && *final(self) == old(self).granted(blocks, bytes)
                    && final(self).blocks <= final(self).max_blocks && final(self).bytes
                    <= final(self).max_bytes,
                None => !old(self).admits(blocks, bytes) && *final(self) == (ReservationAdmission {
                    rejections: old(self).rejections.wrapping_add(1),
                    ..*old(self)
                }),
            },
    {
        let max_blocks: u64 = self.max_blocks;
        let max_bytes: u64 = self.max_bytes;
        if !reserve(&mut self.blocks, blocks, max_blocks) {
            self.rejections = self.rejections.wrapping_add(1);
            return None;
        }
        if !reserve(&mut self.bytes, bytes, max_bytes) {
            release(&mut self.blocks, blocks);
            self.rejections = self.rejections.wrapping_add(1);
            return None;
        }
        Some(ReservationPermit { blocks, bytes })
    }

    /// Give capacity back.
    pub fn release(&mut self, blocks: u64, bytes: u64)
        ensures
            *final(self) == old(self).released(blocks, bytes),
    {
        release(&mut self.blocks, blocks);
        release(&mut self.bytes, bytes);
    }

    /// End a permit: its capacity goes back unless the reservation is retained.
    pub fn settle(&mut self, permit: ReservationPermit, retained: bool)
        ensures
            *final(self) == (if retained {
                *old(self)
            } else {
                old(self).released(permit.blocks, permit.bytes)
            }),
    {
        if !retained {
            self.release(permit.blocks, permit.bytes);
        }
    }

    /// Blocks and bytes in use.
    pub fn usage(&self) -> (r: (u64, u64))
        ensures
            r == (self.blocks, self.bytes),
    {
        (self.blocks, self.bytes)
    }
}

/// Giving back what was granted restores the use.
pub proof fn law_release_undoes_acquire(admission: ReservationAdmission, blocks: u64, bytes: u64)
    requires
        admission.admits(blocks, bytes),
    ensures
        admission.granted(blocks, bytes).released(blocks, bytes) == admission,
{
}

/// A reservation is admitted exactly where neither its blocks nor its bytes exceed
/// what the limits leave; granting counts both, releasing takes both off.
pub proof fn law_reservations_stay_within_limits(
    admission: ReservationAdmission,
    blocks: u64,
    bytes: u64,
)
    ensures
        admission.admits(blocks, bytes) <==> admission.blocks + blocks <= admission.max_blocks
            && admission.bytes + bytes <= admission.max_bytes,
        admission.admits(blocks, bytes) ==> {
            let next = admission.granted(blocks, bytes);
            &&& next.blocks == admission.blocks + blocks
            &&& next.bytes == admission.bytes + bytes
            &&& next.max_blocks == admission.max_blocks && next.max_bytes == admission.max_bytes
        },
        blocks <= admission.blocks && bytes <= admission.bytes ==> {
            let next = admission.released(blocks, bytes);
            &&& next.blocks == admission.blocks - blocks
            &&& next.bytes == admission.bytes - bytes
            &&& next.max_blocks == admission.max_blocks && next.max_bytes == admission.max_bytes
        },
{
}

} // verus!
