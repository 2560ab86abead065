//! Tests for document discovery and status labelling.

use std::io::Write;

use driftwatcher::errors::DriftError;
use driftwatcher::scanner::{find_markdown_files, is_markdown};
use driftwatcher::status::Status;

fn make_dir() -> tempfile::TempDir {
    tempfile::Builder::new().prefix("dwtest").tempdir().unwrap()
}

fn make_file(dir: &std::path::Path, name: &str, contents: &[u8]) -> tempfile::NamedTempFile {
    let dot = name.rfind('.').unwrap();
    let mut f = tempfile::Builder::new()
        .prefix(&name[..dot])
        .suffix(&name[dot..])
        .rand_bytes(0)
        .tempfile_in(dir)
        .unwrap();
    f.write_all(contents).unwrap();
    f.flush().unwrap();
    f
}

#[test]
fn test_is_markdown() {
    assert!(is_markdown("README.md"));
    assert!(is_markdown("doc.markdown"));
    assert!(is_markdown("path/to/file.MD"));
    assert!(!is_markdown("file.txt"));
    assert!(!is_markdown("file.rs"));
    assert!(!is_markdown("noext"));
}

#[test]
fn test_find_markdown_files_in_tree() {
    let dir = make_dir();
    let _m1 = make_file(dir.path(), "a.md", b"# A");
    let _m2 = make_file(dir.path(), "b.markdown", b"# B");
    let _other = make_file(dir.path(), "c.txt", b"not markdown");
    let sub = tempfile::Builder::new().prefix("sub").rand_bytes(0).tempdir_in(dir.path()).unwrap();
    let _m3 = make_file(sub.path(), "d.md", b"# D");
    let hidden = tempfile::Builder::new()
        .prefix(".hid")
        .rand_bytes(0)
        .tempdir_in(dir.path())
        .unwrap();
    let _m4 = make_file(hidden.path(), "e.md", b"# E hidden");

    let found = find_markdown_files(Some(dir.path().to_str().unwrap())).unwrap();
    assert_eq!(found.len(), 3);
    assert!(found.iter().all(|p| is_markdown(p)));
    assert!(!found.iter().any(|p| p.ends_with("e.md")));
    let mut resorted = found.clone();
    resorted.sort();
    assert_eq!(found, resorted);
}

#[test]
fn test_find_markdown_files_single_file_target() {
    let dir = make_dir();
    let doc = make_file(dir.path(), "a.md", b"# A");
    let found = find_markdown_files(Some(doc.path().to_str().unwrap())).unwrap();
    assert_eq!(found.len(), 1);

    let other = make_file(dir.path(), "b.txt", b"plain");
    let err = find_markdown_files(Some(other.path().to_str().unwrap())).unwrap_err();
    assert_eq!(err, DriftError::NoMatch);
}

#[test]
fn test_status_is_problem() {
    assert!(!Status::Current.is_problem());
    assert!(Status::Drifted.is_problem());
    assert!(Status::Missing.is_problem());
    assert!(!Status::Invalid.is_problem());
}

#[test]
fn test_status_label() {
    assert_eq!(Status::Current.label(), "CURRENT");
    assert_eq!(Status::Drifted.label(), "DRIFTED");
    assert_eq!(Status::Missing.label(), "MISSING");
    assert_eq!(Status::Invalid.label(), "INVALID");
}

#[test]
fn test_error_messages_exist() {
    assert!(!DriftError::IoError.message().is_empty());
    assert!(!DriftError::EntryNotFound.message().is_empty());
}
