//! Detects documentation drift: tracks, inside a document's leading metadata
//! block, a set of filesystem patterns each bound to a content hash, and
//! reports when the live filesystem content has changed, disappeared, or was
//! never hashed.

pub mod digest;
pub mod errors;
pub mod evaluate;
pub mod frontmatter;
pub(crate) mod fsio;
pub mod paths;
pub mod report;
pub mod scanner;
pub mod status;
pub mod text;
