//! Lifecycle errors and their texts.
use vstd::prelude::*;
use crate::allocator::{AllocError, AllocErrorModel};
use crate::lifecycle::state::StateTransitionError;
use crate::storage::{StoreError, StoreErrorModel};
use crate::text::{decimal, push_decimal, text, text_number_text};

verus! {

/// Lifecycle error.
#[derive(Debug)]
pub enum LifecycleError {
    InvalidStateTransition(StateTransitionError),
    ChunkNotFound,
    ChunkAlreadyExists,
    StateConflict,
    Allocation(AllocError),
    Storage(StoreError),
    InvalidRequest(String),
    NotMyRange { bucket: u16 },
    LockBusy,
    LockTimeout,
    StripIndexOutOfRange { index: u32, len: usize },
    Commit(String),
    Cleanup(String),
}

/// Model of a lifecycle error.
pub enum LifecycleErrorModel {
    InvalidStateTransition(StateTransitionError),
    ChunkNotFound,
    ChunkAlreadyExists,
    StateConflict,
    Allocation(AllocErrorModel),
    Storage(StoreErrorModel),
    InvalidRequest(Seq<char>),
    NotMyRange { bucket: u16 },
    LockBusy,
    LockTimeout,
    StripIndexOutOfRange { index: u32, len: usize },
    Commit(Seq<char>),
    Cleanup(Seq<char>),
}

impl View for LifecycleError {
    type V = LifecycleErrorModel;

    open spec fn view(&self) -> LifecycleErrorModel {
        match self {
            LifecycleError::InvalidStateTransition(e) => LifecycleErrorModel::InvalidStateTransition(*e),
            LifecycleError::ChunkNotFound => LifecycleErrorModel::ChunkNotFound,
            LifecycleError::ChunkAlreadyExists => LifecycleErrorModel::ChunkAlreadyExists,
            LifecycleError::StateConflict => LifecycleErrorModel::StateConflict,
            LifecycleError::Allocation(e) => LifecycleErrorModel::Allocation(e@),
            LifecycleError::Storage(e) => LifecycleErrorModel::Storage(e@),
            LifecycleError::InvalidRequest(m) => LifecycleErrorModel::InvalidRequest(m@),
            LifecycleError::NotMyRange { bucket } => LifecycleErrorModel::NotMyRange { bucket: *bucket },
            LifecycleError::LockBusy => LifecycleErrorModel::LockBusy,
            LifecycleError::LockTimeout => LifecycleErrorModel::LockTimeout,
            LifecycleError::StripIndexOutOfRange { index, len } => LifecycleErrorModel::StripIndexOutOfRange {
                index: *index,
                len: *len,
            },
            LifecycleError::Commit(m) => LifecycleErrorModel::Commit(m@),
            LifecycleError::Cleanup(m) => LifecycleErrorModel::Cleanup(m@),
        }
    }
}

impl LifecycleErrorModel {
    /// Text of the error.
    pub open spec fn message(self) -> Seq<char> {
        match self {
            LifecycleErrorModel::InvalidStateTransition(e) => "invalid state transition: "@
                + e.spec_message(),
            LifecycleErrorModel::ChunkNotFound => "chunk not found"@,
            LifecycleErrorModel::ChunkAlreadyExists => "chunk already exists"@,
            LifecycleErrorModel::StateConflict => "state conflict — concurrent modification"@,
            LifecycleErrorModel::Allocation(e) => "allocation failed: "@ + e.message(),
            LifecycleErrorModel::Storage(e) => "storage error: "@ + e.message(),
            LifecycleErrorModel::InvalidRequest(m) => "invalid request: "@ + m,
            LifecycleErrorModel::NotMyRange { bucket } => "chunk bucket "@ + decimal(bucket as nat)
                + " not in owned ranges"@,
            LifecycleErrorModel::LockBusy => "chunk lock busy — retry later"@,
            LifecycleErrorModel::LockTimeout => "chunk lock acquire timed out"@,
            LifecycleErrorModel::StripIndexOutOfRange { index, len } => "strip index "@ + decimal(
                index as nat,
            ) + " out of range (chunk has "@ + decimal(len as nat) + " strips)"@,
            LifecycleErrorModel::Commit(m) => "diskdb commit failed: "@ + m,
            LifecycleErrorModel::Cleanup(m) => "diskdb cleanup failed after metadata publication: "@ + m,
        }
    }
}

fn joined(head: &str, tail: &str) -> (r: String)
    ensures
        r@ == head@ + tail@,
{
    let mut out = text(head);
    out.append(tail);
    out
}

impl LifecycleError {
    /// Text of the error.
    pub fn message(&self) -> (r: String)
        ensures
            r@ == self@.message(),
    {
        match self {
            LifecycleError::InvalidStateTransition(e) => joined(
                "invalid state transition: ",
                e.message().as_str(),
            ),
            LifecycleError::ChunkNotFound => text("chunk not found"),
            LifecycleError::ChunkAlreadyExists => text("chunk already exists"),
            LifecycleError::StateConflict => text("state conflict — concurrent modification"),
            LifecycleError::Allocation(e) => joined("allocation failed: ", e.message().as_str()),
            LifecycleError::Storage(e) => joined("storage error: ", e.message().as_str()),
            LifecycleError::InvalidRequest(m) => joined("invalid request: ", m.as_str()),
            LifecycleError::NotMyRange { bucket } => text_number_text(
                "chunk bucket ",
                *bucket as u64,
                " not in owned ranges",
            ),
            LifecycleError::LockBusy => text("chunk lock busy — retry later"),
            LifecycleError::LockTimeout => text("chunk lock acquire timed out"),
            LifecycleError::StripIndexOutOfRange { index, len } => {
                let mut out = text_number_text(
                    "strip index ",
                    *index as u64,
                    " out of range (chunk has ",
                );
                push_decimal(&mut out, *len as u64);
                out.append(" strips)");
                out
            },
            LifecycleError::Commit(m) => joined("diskdb commit failed: ", m.as_str()),
            LifecycleError::Cleanup(m) => joined(
                "diskdb cleanup failed after metadata publication: ",
                m.as_str(),
            ),
        }
    }
}

/// An `InvalidRequest` with the text.
pub fn invalid_request(message: &str) -> (r: LifecycleError)
    ensures
        r@ == LifecycleErrorModel::InvalidRequest(message@),
{
    LifecycleError::InvalidRequest(text(message))
}

} // verus!
