//! The formats a status report can be rendered in.

use vstd::prelude::*;

verus! {

/// How the orchestration layer renders a report.
#[derive(Debug, Clone, Copy, PartialEq, Eq, Structural)]
pub enum OutputFormat {
    Plaintext,
    Json,
    Yaml,
}

} // verus!
