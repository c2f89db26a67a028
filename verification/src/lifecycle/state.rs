//! The chunk state machine: `Init -> Active -> Sealed -> Deleted`.
use vstd::prelude::*;
use crate::text::text;
pub use crate::types::ChunkState;

verus! {

/// The states that a refused operation asks for.
#[derive(Debug, Clone, Copy, PartialEq, Eq, Structural)]
pub enum ExpectedState {
    Active,
    ActiveOrSealed,
}

/// An operation that the current state does not allow.
#[derive(Debug, Clone, Copy, PartialEq, Eq, Structural)]
pub struct StateTransitionError {
    pub from: ChunkState,
    pub expected: ExpectedState,
}

impl StateTransitionError {
    /// Name of the current state.
    pub open spec fn spec_from_name(self) -> Seq<char> {
        match self.from {
            ChunkState::Init => "Init"@,
            ChunkState::Active => "Active"@,
            ChunkState::Sealed => "Sealed"@,
            ChunkState::Deleted => "Deleted"@,
        }
    }

    /// Name of the states asked for.
    pub open spec fn spec_expected_name(self) -> Seq<char> {
        match self.expected {
            ExpectedState::Active => "Active"@,
            ExpectedState::ActiveOrSealed => "Active|Sealed"@,
        }
    }

    /// Text of the error.
    pub open spec fn spec_message(self) -> Seq<char> {
        "chunk is "@ + self.spec_from_name() + ", expected "@ + self.spec_expected_name()
    }

    /// Text of the error.
    pub fn message(&self) -> (r: String)
        ensures
            r@ == self.spec_message(),
    {
        let mut out = text("chunk is ");
        match self.from {
            ChunkState::Init => out.append("Init"),
            ChunkState::Active => out.append("Active"),
            ChunkState::Sealed => out.append("Sealed"),
            ChunkState::Deleted => out.append("Deleted"),
        }
        out.append(", expected ");
        match self.expected {
            ExpectedState::Active => out.append("Active"),
            ExpectedState::ActiveOrSealed => out.append("Active|Sealed"),
        }
        out
    }
}

impl ChunkState {
    /// Strips are added, confirmed or removed in state `Active` only.
    pub fn check_can_append(self) -> (r: Result<(), StateTransitionError>)
        ensures
            r == (if self == ChunkState::Active {
                Ok(())
            } else {
                Err(StateTransitionError { from: self, expected: ExpectedState::Active })
            }),
    {
        if self == ChunkState::Active {
            Ok(())
        } else {
            Err(StateTransitionError { from: self, expected: ExpectedState::Active })
        }
    }

    /// A chunk is sealed in state `Active` only.
    pub fn check_can_seal(self) -> (r: Result<(), StateTransitionError>)
        ensures
            r == (if self == ChunkState::Active {
                Ok(())
            } else {
                Err(StateTransitionError { from: self, expected: ExpectedState::Active })
            }),
    {
        if self == ChunkState::Active {
            Ok(())
        } else {
            Err(StateTransitionError { from: self, expected: ExpectedState::Active })
        }
    }

    /// A chunk is deleted in state `Active` or `Sealed`.
    pub fn check_can_delete(self) -> (r: Result<(), StateTransitionError>)
        ensures
            r == (if self == ChunkState::Active || self == ChunkState::Sealed {
                Ok(())
            } else {
                Err(StateTransitionError { from: self, expected: ExpectedState::ActiveOrSealed })
            }),
    {
        if self == ChunkState::Active || self == ChunkState::Sealed {
            Ok(())
        } else {
            Err(StateTransitionError { from: self, expected: ExpectedState::ActiveOrSealed })
        }
    }
}

} // verus!
