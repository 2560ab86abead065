//! Trusted access to the filesystem, through outside crates and `std::path`.
//!
//! Every function here answers from the state of the disk, so no contract can
//! pin its result: callers state what holds of every outcome.

use vstd::prelude::*;

use std::path::Path;

verus! {

/// Relies on `fs_err::read`: the full byte content of the file, or an error
/// when it cannot be read.
#[verifier::external_body]
pub(crate) fn read_file_bytes(path: &str) -> (r: Result<Vec<u8>, ()>) {
    fs_err::read(path).map_err(|_| ())
}

/// Relies on `fs_err::read_to_string`: the text content of the file, or an
/// error when it cannot be read or is not valid text.
#[verifier::external_body]
pub(crate) fn read_file_text(path: &str) -> (r: Result<String, ()>) {
    fs_err::read_to_string(path).map_err(|_| ())
}

/// Relies on `std::path::Path::exists`: whether the path points at anything
/// on disk right now.
#[verifier::external_body]
pub(crate) fn path_exists(path: &str) -> (r: bool) {
    Path::new(path).exists()
}

/// Relies on `std::path::Path::is_dir`: whether the path is a directory.
#[verifier::external_body]
pub(crate) fn path_is_dir(path: &str) -> (r: bool) {
    Path::new(path).is_dir()
}

/// Relies on `std::path::Path::is_file`: whether the path is a regular file.
#[verifier::external_body]
pub(crate) fn path_is_file(path: &str) -> (r: bool) {
    Path::new(path).is_file()
}

/// Relies on `std::path::Path::canonicalize`: the absolute form of an
/// existing path, or nothing when the path cannot be resolved.
#[verifier::external_body]
pub(crate) fn canonicalize_path(path: &str) -> (r: Option<String>) {
    Path::new(path).canonicalize().ok().map(|p| p.to_string_lossy().into_owned())
}

/// Relies on `glob::glob`: the paths on disk matching the pattern, yielded in
/// alphabetical order; entries the walk cannot read are skipped; an error
/// means the pattern itself is invalid.
#[verifier::external_body]
pub(crate) fn glob_paths(pattern: &str) -> (r: Result<Vec<String>, ()>) {
    let walker = match glob::glob(pattern) {
        Ok(w) => w,
        Err(_) => return Err(()),
    };
    Ok(walker.filter_map(|e| e.ok().map(|p| p.to_string_lossy().into_owned())).collect())
}

} // verus!
