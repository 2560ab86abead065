//! The drift evaluator: classifies one tracked entry against the live
//! filesystem.

use vstd::prelude::*;

use crate::digest::spec_is_digest;
use crate::errors::DriftError;
use crate::frontmatter::WatchEntry;
use crate::paths::PathResolver;
use crate::status::Status;

verus! {

/// Classifies the outcome of a digest computation against a stored hash: a
/// computed digest equal to the stored one is current, a different one has
/// drifted and is surfaced so the caller can persist it without
/// recomputation, and a failed computation means the content is missing.
pub fn classify(stored: &String, fresh: Result<String, DriftError>) -> (r: (
    Status,
    Option<String>,
))
    ensures
        fresh matches Ok(c) ==> r == (if c@ == stored@ {
            (Status::Current, Some(c))
        } else {
            (Status::Drifted, Some(c))
        }),
        fresh is Err ==> r == (Status::Missing, None::<String>),
{
    match fresh {
        Err(_) => (Status::Missing, None),
        Ok(c) => {
            if c.eq(stored) {
                (Status::Current, Some(c))
            } else {
                (Status::Drifted, Some(c))
            }
        },
    }
}

/// Classifies one entry. An entry with no stored hash is invalid whatever the
/// disk holds, and surfaces no digest; an entry whose pattern resolves to
/// nothing, or whose digest cannot be computed, is missing; otherwise the
/// fresh digest decides between current and drifted, and is returned so the
/// caller can persist it without recomputation. The hash-presence check comes
/// first, so an un-hashed entry whose pattern also matches nothing is
/// reported invalid.
pub fn evaluate(resolver: &PathResolver, entry: &WatchEntry) -> (r: (Status, Option<String>))
    ensures
        (r.0 == Status::Invalid) == (entry.hash is None),
        r.0 == Status::Invalid ==> r.1 is None,
        r.0 == Status::Missing ==> r.1 is None,
        r.0 == Status::Current ==> ({
            &&& entry.hash matches Some(h) && r.1 matches Some(c) && c@ == h@
            &&& r.1 matches Some(c) && spec_is_digest(c@)
        }),
        r.0 == Status::Drifted ==> ({
            &&& entry.hash matches Some(h) && r.1 matches Some(c) && c@ != h@
            &&& r.1 matches Some(c) && spec_is_digest(c@)
        }),
{
    let stored = match &entry.hash {
        None => {
            return (Status::Invalid, None);
        },
        Some(h) => h,
    };
    match resolver.resolve(entry.pattern.as_str()) {
        Err(_) => {
            return (Status::Missing, None);
        },
        Ok(paths) => {
            if paths.len() == 0 {
                return (Status::Missing, None);
            }
        },
    }
    classify(stored, resolver.hash_pattern(entry.pattern.as_str()))
}

} // verus!
