//! Chunk allocator: strip layout, block requests and their outcomes.
use vstd::prelude::*;
use crate::selector::{PlacementError, PlacementErrorModel};
use crate::text::{decimal, text, text_number_text, text_two_numbers};

pub mod effects;
pub mod pool;
pub mod rounds;
pub mod strips;

verus! {

/// Allocator error.
#[derive(Debug)]
pub enum AllocError {
    Placement(PlacementError),
    AllocateFailed { dg_id: u64, error: String },
    PartialAllocation { requested: u32, got: u32 },
    InvalidResponse { dg_id: u64, reason: String },
    Rollback(String),
}

/// Model of an allocator error.
pub enum AllocErrorModel {
    Placement(PlacementErrorModel),
    AllocateFailed { dg_id: u64, error: Seq<char> },
    PartialAllocation { requested: u32, got: u32 },
    InvalidResponse { dg_id: u64, reason: Seq<char> },
    Rollback(Seq<char>),
}

impl View for AllocError {
    type V = AllocErrorModel;

    open spec fn view(&self) -> AllocErrorModel {
        match self {
            AllocError::Placement(e) => AllocErrorModel::Placement(e@),
            AllocError::AllocateFailed { dg_id, error } => AllocErrorModel::AllocateFailed {
                dg_id: *dg_id,
                error: error@,
            },
            AllocError::PartialAllocation { requested, got } => AllocErrorModel::PartialAllocation {
                requested: *requested,
                got: *got,
            },
            AllocError::InvalidResponse { dg_id, reason } => AllocErrorModel::InvalidResponse {
                dg_id: *dg_id,
                reason: reason@,
            },
            AllocError::Rollback(m) => AllocErrorModel::Rollback(m@),
        }
    }
}

impl AllocErrorModel {
    /// Text of the error.
    pub open spec fn message(self) -> Seq<char> {
        match self {
            AllocErrorModel::Placement(e) => "placement failed: "@ + e.message(),
            AllocErrorModel::AllocateFailed { dg_id, error } => "diskdb allocate failed for disk_group "@
                + decimal(dg_id as nat) + ": "@ + error,
            AllocErrorModel::PartialAllocation { requested, got } => "partial allocation: requested "@
                + decimal(requested as nat) + ", got "@ + decimal(got as nat),
            AllocErrorModel::InvalidResponse { dg_id, reason } => "invalid diskdb allocation response for disk_group "@
                + decimal(dg_id as nat) + ": "@ + reason,
            AllocErrorModel::Rollback(m) => "rollback failed: "@ + m,
        }
    }
}

impl AllocError {
    /// Text of the error.
    pub fn message(&self) -> (r: String)
        ensures
            r@ == self@.message(),
    {
        match self {
            AllocError::Placement(e) => {
                let mut out = text("placement failed: ");
                out.append(e.message().as_str());
                out
            },
            AllocError::AllocateFailed { dg_id, error } => {
                let mut out = text_number_text(
                    "diskdb allocate failed for disk_group ",
                    *dg_id,
                    ": ",
                );
                out.append(error.as_str());
                out
            },
            AllocError::PartialAllocation { requested, got } => text_two_numbers(
                "partial allocation: requested ",
                *requested as u64,
                ", got ",
                *got as u64,
            ),
            AllocError::InvalidResponse { dg_id, reason } => {
                let mut out = text_number_text(
                    "invalid diskdb allocation response for disk_group ",
                    *dg_id,
                    ": ",
                );
                out.append(reason.as_str());
                out
            },
            AllocError::Rollback(m) => {
                let mut out = text("rollback failed: ");
                out.append(m.as_str());
                out
            },
        }
    }
}

/// Strip type for allocation.
#[derive(Debug, Clone, Copy, PartialEq, Eq, Structural)]
pub enum StripAllocType {
    Mirror { copy_count: usize },
    Ec { data_num: usize, code_num: usize },
}

/// Geometry and ordered identity range for one atomic strip batch.
#[derive(Debug, Clone, Copy, PartialEq, Eq, Structural)]
pub struct StripBatchSpec {
    pub strip_type: StripAllocType,
    pub unit_count: u32,
    pub start_sequence: u32,
    pub strip_count: u32,
}

} // verus!
