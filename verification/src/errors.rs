//! Failure taxonomy shared by the whole library.

use vstd::prelude::*;

verus! {

/// Every way an operation of this library can fail.
#[derive(Clone, Copy, Debug, PartialEq, Eq, Structural)]
pub enum DriftError {
    /// A file or directory could not be read.
    IoError,
    /// The metadata block's body is not a structured mapping of the expected shape.
    ParseError,
    /// A block opener is present but no closing delimiter follows.
    MalformedBlock,
    /// No version-control marker directory exists above the document.
    ProjectRootNotFound,
    /// A pattern resolves to zero hashable files.
    NoMatch,
    /// The entry named for an update does not exist in the document.
    EntryNotFound,
    /// The tracked-entries key cannot be located in the document.
    BlockNotFound,
    /// A glob pattern is syntactically invalid.
    InvalidPattern,
}

/// The diagnostic text each error renders as.
pub open spec fn spec_message(e: DriftError) -> Seq<char> {
    match e {
        DriftError::IoError => "file or directory could not be read"@,
        DriftError::ParseError => "metadata block is not a well-formed mapping"@,
        DriftError::MalformedBlock => "metadata block is not closed"@,
        DriftError::ProjectRootNotFound => "no project root found above the document"@,
        DriftError::NoMatch => "pattern matches no files"@,
        DriftError::EntryNotFound => "entry not found"@,
        DriftError::BlockNotFound => "tracked-entries key not found"@,
        DriftError::InvalidPattern => "glob pattern is invalid"@,
    }
}

impl DriftError {
    /// A short description suitable for diagnostics.
    pub fn message(&self) -> (r: &'static str)
        ensures
            r@ == spec_message(*self),
    {
        match self {
            DriftError::IoError => "file or directory could not be read",
            DriftError::ParseError => "metadata block is not a well-formed mapping",
            DriftError::MalformedBlock => "metadata block is not closed",
            DriftError::ProjectRootNotFound => "no project root found above the document",
            DriftError::NoMatch => "pattern matches no files",
            DriftError::EntryNotFound => "entry not found",
            DriftError::BlockNotFound => "tracked-entries key not found",
            DriftError::InvalidPattern => "glob pattern is invalid",
        }
    }
}

} // verus!
