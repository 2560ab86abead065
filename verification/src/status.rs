//! Drift classification of a tracked entry.

use vstd::prelude::*;

verus! {

/// The state of one tracked entry relative to its stored hash: derived fresh
/// on every check, never stored.
#[derive(Clone, Copy, Debug, PartialEq, Eq, Structural)]
pub enum Status {
    Current,
    Drifted,
    Missing,
    Invalid,
}

/// The label each status renders as.
pub open spec fn spec_label(s: Status) -> Seq<char> {
    match s {
        Status::Current => "CURRENT"@,
        Status::Drifted => "DRIFTED"@,
        Status::Missing => "MISSING"@,
        Status::Invalid => "INVALID"@,
    }
}

impl Status {
    /// A status that calls for action: the content drifted or is gone.
    pub fn is_problem(&self) -> (r: bool)
        ensures
            r == (*self == Status::Drifted || *self == Status::Missing),
    {
        matches!(self, Status::Drifted | Status::Missing)
    }

    /// The upper-case label used when the status is printed.
    pub fn label(&self) -> (r: &'static str)
        ensures
            r@ == spec_label(*self),
    {
        match self {
            Status::Current => "CURRENT",
            Status::Drifted => "DRIFTED",
            Status::Missing => "MISSING",
            Status::Invalid => "INVALID",
        }
    }
}

} // verus!
