//! Decisions of the management endpoints.
use vstd::prelude::*;

verus! {

/// Whether the instance serves requests.
#[derive(Debug, Clone, Copy, PartialEq, Eq, Structural)]
pub enum Readiness {
    Ready,
    RefreshFailed,
    Pending,
}

impl Readiness {
    /// Status of the reply.
    pub open spec fn spec_status(self) -> u16 {
        match self {
            Readiness::Ready => 200,
            _ => 503,
        }
    }

    /// Text of the reply.
    pub open spec fn spec_text(self) -> Seq<char> {
        match self {
            Readiness::Ready => "ok"@,
            Readiness::RefreshFailed => "range ownership refresh failed"@,
            Readiness::Pending => "range ownership pending"@,
        }
    }

    /// Status of the reply.
    pub fn status(self) -> (r: u16)
        ensures
            r == self.spec_status(),
    {
        match self {
            Readiness::Ready => 200,
            _ => 503,
        }
    }

    /// Text of the reply.
    pub fn text(self) -> (r: &'static str)
        ensures
            r@ == self.spec_text(),
    {
        match self {
            Readiness::Ready => "ok",
            Readiness::RefreshFailed => "range ownership refresh failed",
            Readiness::Pending => "range ownership pending",
        }
    }
}

/// Whether the instance serves requests: an instance with an identity must have
/// refreshed its ranges, and the ranges must be known.
pub fn ready_response(refreshed: Option<bool>, ranges_ready: bool) -> (r: Readiness)
    ensures
        r == (if refreshed == Some(false) {
            Readiness::RefreshFailed
        } else if ranges_ready {
            Readiness::Ready
        } else {
            Readiness::Pending
        }),
{
    match refreshed {
        Some(false) => {
            return Readiness::RefreshFailed;
        },
        _ => {},
    }
    if ranges_ready {
        Readiness::Ready
    } else {
        Readiness::Pending
    }
}

/// An instance is told to serve exactly where its reply is 200, which is where its ranges
/// are known and no refresh of them failed.
pub proof fn law_readiness_is_told(readiness: Readiness)
    ensures
        readiness.spec_status() == 200 || readiness.spec_status() == 503,
        readiness.spec_status() == 200 <==> readiness == Readiness::Ready,
        readiness == Readiness::Ready <==> readiness.spec_text() == "ok"@,
{
    reveal_strlit("ok");
    reveal_strlit("range ownership refresh failed");
    reveal_strlit("range ownership pending");
    assert("range ownership refresh failed"@.len() == 30);
    assert("range ownership pending"@.len() == 23);
    assert("ok"@.len() == 2);
}

} // verus!
