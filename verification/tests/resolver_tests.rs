//! Tests for the pattern resolver and the drift evaluator.

use std::io::Write;

use driftwatcher::errors::DriftError;
use driftwatcher::evaluate::evaluate;
use driftwatcher::frontmatter::WatchEntry;
use driftwatcher::paths::{is_glob_pattern, is_hidden, PathResolver};
use driftwatcher::status::Status;

fn make_dir() -> tempfile::TempDir {
    tempfile::Builder::new().prefix("dwtest").tempdir().unwrap()
}

fn make_subdir(dir: &std::path::Path, name: &str) -> tempfile::TempDir {
    tempfile::Builder::new().prefix(name).rand_bytes(0).tempdir_in(dir).unwrap()
}

fn make_file(dir: &std::path::Path, name: &str, contents: &[u8]) -> tempfile::NamedTempFile {
    let dot = name.rfind('.').unwrap();
    let mut f = tempfile::Builder::new()
        .prefix(&name[..dot])
        .suffix(&name[dot..])
        .rand_bytes(0)
        .tempfile_in(dir)
        .unwrap();
    f.write_all(contents).unwrap();
    f.flush().unwrap();
    f
}

/// A project: a root directory holding a version-control marker.
fn make_project() -> (tempfile::TempDir, tempfile::TempDir) {
    let root = make_dir();
    let marker = make_subdir(root.path(), ".git");
    (root, marker)
}

fn doc_in(dir: &std::path::Path) -> String {
    dir.join("doc.md").to_str().unwrap().to_string()
}

#[test]
fn test_is_glob_pattern() {
    assert!(is_glob_pattern("*.rs"));
    assert!(is_glob_pattern("src/**/*.rs"));
    assert!(is_glob_pattern("file?.txt"));
    assert!(is_glob_pattern("[abc].txt"));
    assert!(!is_glob_pattern("src/main.rs"));
    assert!(!is_glob_pattern("path/to/file.txt"));
}

#[test]
fn test_is_hidden() {
    assert!(is_hidden(".git"));
    assert!(is_hidden("src/.hidden"));
    assert!(is_hidden(".config/file.txt"));
    assert!(!is_hidden("src/main.rs"));
    assert!(!is_hidden("visible.txt"));
    // Ensure .. and . are not considered hidden
    assert!(!is_hidden("../src/main.rs"));
    assert!(!is_hidden("./src/main.rs"));
    assert!(!is_hidden("foo/../bar/file.rs"));
}

#[test]
fn test_resolve_literal_path() {
    let (root, _marker) = make_project();
    let file = make_file(root.path(), "a.txt", b"hi");
    let resolver = PathResolver::new(&doc_in(root.path())).unwrap();
    let paths = resolver.resolve("a.txt").unwrap();
    assert_eq!(paths.len(), 1);
    assert!(paths[0].ends_with("a.txt"));
    drop(file);
    let gone = resolver.resolve("a.txt").unwrap();
    assert!(gone.is_empty());
}

#[test]
fn test_resolve_root_relative_three_deep() {
    let (root, _marker) = make_project();
    let _cargo = make_file(root.path(), "Cargo.toml", b"[package]");
    let a = make_subdir(root.path(), "a");
    let b = make_subdir(a.path(), "b");
    let c = make_subdir(b.path(), "c");
    let resolver = PathResolver::new(&doc_in(c.path())).unwrap();
    let paths = resolver.resolve("$ROOT/Cargo.toml").unwrap();
    assert_eq!(paths.len(), 1);
    assert!(paths[0].ends_with("Cargo.toml"));
}

#[test]
fn test_resolver_without_project_root() {
    // No version-control marker anywhere above a bare temporary directory.
    let dir = make_dir();
    let err = PathResolver::new(&doc_in(dir.path())).unwrap_err();
    assert_eq!(err, DriftError::ProjectRootNotFound);
}

#[test]
fn test_hash_pattern_glob_mixture_hashes_only_files() {
    let (root, _marker) = make_project();
    let _f1 = make_file(root.path(), "x1.txt", b"one");
    let _f2 = make_file(root.path(), "x2.txt", b"two");
    let _d = make_subdir(root.path(), "x3dir");
    let resolver = PathResolver::new(&doc_in(root.path())).unwrap();
    let paths = resolver.resolve("x*").unwrap();
    assert_eq!(paths.len(), 3);
    let digest = resolver.hash_pattern("x*").unwrap();
    assert_eq!(digest.len(), 64);

    // The directory's presence does not change the digest.
    let _d2 = make_subdir(root.path(), "x4dir");
    assert_eq!(resolver.hash_pattern("x*").unwrap(), digest);
}

#[test]
fn test_hash_pattern_glob_only_directories_is_no_match() {
    let (root, _marker) = make_project();
    let _d1 = make_subdir(root.path(), "ya");
    let _d2 = make_subdir(root.path(), "yb");
    let resolver = PathResolver::new(&doc_in(root.path())).unwrap();
    assert_eq!(resolver.hash_pattern("y*").unwrap_err(), DriftError::NoMatch);
}

#[test]
fn test_hash_pattern_no_match() {
    let (root, _marker) = make_project();
    let resolver = PathResolver::new(&doc_in(root.path())).unwrap();
    assert_eq!(resolver.hash_pattern("absent.txt").unwrap_err(), DriftError::NoMatch);
}

#[test]
fn test_resolve_invalid_glob_pattern() {
    let (root, _marker) = make_project();
    let resolver = PathResolver::new(&doc_in(root.path())).unwrap();
    assert_eq!(resolver.resolve("[unclosed").unwrap_err(), DriftError::InvalidPattern);
}

#[test]
fn test_evaluate_lifecycle() {
    let (root, _marker) = make_project();
    let mut file = make_file(root.path(), "a.txt", b"first");
    let resolver = PathResolver::new(&doc_in(root.path())).unwrap();
    let stored = resolver.hash_pattern("a.txt").unwrap();

    let entry = WatchEntry { pattern: "a.txt".to_string(), hash: Some(stored.clone()) };
    let (status, digest) = evaluate(&resolver, &entry);
    assert_eq!(status, Status::Current);
    assert_eq!(digest, Some(stored.clone()));

    file.write_all(b" changed").unwrap();
    file.flush().unwrap();
    let (status, digest) = evaluate(&resolver, &entry);
    assert_eq!(status, Status::Drifted);
    let fresh = digest.unwrap();
    assert_ne!(fresh, stored);
    assert_eq!(fresh, resolver.hash_pattern("a.txt").unwrap());

    drop(file);
    let (status, digest) = evaluate(&resolver, &entry);
    assert_eq!(status, Status::Missing);
    assert_eq!(digest, None);
}

#[test]
fn test_evaluate_missing_hash_is_always_invalid() {
    let (root, _marker) = make_project();
    let _file = make_file(root.path(), "a.txt", b"exists");
    let resolver = PathResolver::new(&doc_in(root.path())).unwrap();

    let present = WatchEntry { pattern: "a.txt".to_string(), hash: None };
    assert_eq!(evaluate(&resolver, &present), (Status::Invalid, None));

    let absent = WatchEntry { pattern: "gone.txt".to_string(), hash: None };
    assert_eq!(evaluate(&resolver, &absent), (Status::Invalid, None));
}
