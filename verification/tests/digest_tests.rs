//! Tests for the content-hashing engine.

use std::io::Write;

use driftwatcher::digest::{hash_bytes, hash_directory, hash_file, hash_named_contents, FileData};
use driftwatcher::errors::DriftError;

fn make_dir() -> tempfile::TempDir {
    tempfile::Builder::new().prefix("dwtest").tempdir().unwrap()
}

fn make_file(dir: &std::path::Path, name: &str, contents: &[u8]) -> tempfile::NamedTempFile {
    let dot = name.rfind('.').unwrap();
    let mut f = tempfile::Builder::new()
        .prefix(&name[..dot])
        .suffix(&name[dot..])
        .rand_bytes(0)
        .tempfile_in(dir)
        .unwrap();
    f.write_all(contents).unwrap();
    f.flush().unwrap();
    f
}

#[test]
fn test_hash_file() {
    let dir = make_dir();
    let file = make_file(dir.path(), "test.txt", b"hello world");
    let hash = hash_file(file.path().to_str().unwrap()).unwrap();
    assert_eq!(hash.len(), 64); // SHA256 is 64 hex chars
}

#[test]
fn test_hash_deterministic() {
    let dir = make_dir();
    let file = make_file(dir.path(), "test.txt", b"hello world");
    let hash1 = hash_file(file.path().to_str().unwrap()).unwrap();
    let hash2 = hash_file(file.path().to_str().unwrap()).unwrap();
    assert_eq!(hash1, hash2);
}

#[test]
fn test_hash_bytes_known_value() {
    let hash = hash_bytes(&b"hello world".to_vec());
    assert_eq!(hash, "b94d27b9934d3e08a52e52d7da7dabfac484efe37a5380ee9088f7ace2efcde9");
    let empty = hash_bytes(&Vec::new());
    assert_eq!(empty, "e3b0c44298fc1c149afbf4c8996fb92427ae41e4649b934ca495991b7852b855");
}

#[test]
fn test_hash_file_matches_content_digest() {
    let dir = make_dir();
    let file = make_file(dir.path(), "test.txt", b"hello world");
    let hash = hash_file(file.path().to_str().unwrap()).unwrap();
    assert_eq!(hash, "b94d27b9934d3e08a52e52d7da7dabfac484efe37a5380ee9088f7ace2efcde9");
}

#[test]
fn test_hash_file_unreadable() {
    let err = hash_file("/no/such/file/anywhere.txt").unwrap_err();
    assert_eq!(err, DriftError::IoError);
}

#[test]
fn test_hash_many_known_value() {
    // The stream is "a.txt\nhello\nb.txt\nworld\n" after sorting by path.
    let files = vec![
        FileData { path: "b.txt".to_string(), contents: b"world".to_vec() },
        FileData { path: "a.txt".to_string(), contents: b"hello".to_vec() },
    ];
    let hash = hash_named_contents(files);
    assert_eq!(hash, "d08a2e73e75018bad5ef0ec8da9e337b3b43c8f851e2d7665510579349f2490a");
}

#[test]
fn test_hash_many_order_invariant() {
    let one = vec![
        FileData { path: "a.txt".to_string(), contents: b"hello".to_vec() },
        FileData { path: "b.txt".to_string(), contents: b"world".to_vec() },
        FileData { path: "c.txt".to_string(), contents: b"!".to_vec() },
    ];
    let other = vec![
        FileData { path: "c.txt".to_string(), contents: b"!".to_vec() },
        FileData { path: "b.txt".to_string(), contents: b"world".to_vec() },
        FileData { path: "a.txt".to_string(), contents: b"hello".to_vec() },
    ];
    assert_eq!(hash_named_contents(one), hash_named_contents(other));
}

#[test]
fn test_hash_many_sensitive_to_paths() {
    let one = vec![FileData { path: "a.txt".to_string(), contents: b"hello".to_vec() }];
    let other = vec![FileData { path: "b.txt".to_string(), contents: b"hello".to_vec() }];
    assert_ne!(hash_named_contents(one), hash_named_contents(other));
}

#[test]
fn test_hash_directory_empty_is_stable() {
    let dir = make_dir();
    let d1 = hash_directory(dir.path().to_str().unwrap()).unwrap();
    let d2 = hash_directory(dir.path().to_str().unwrap()).unwrap();
    assert_eq!(d1, d2);
    assert_eq!(d1.len(), 64);
}

#[test]
fn test_hash_directory_skips_hidden() {
    let dir = make_dir();
    let _a = make_file(dir.path(), "a.txt", b"hello");
    let before = hash_directory(dir.path().to_str().unwrap()).unwrap();

    // Content under a hidden directory leaves the digest untouched.
    let hidden = tempfile::Builder::new()
        .prefix(".hidden")
        .rand_bytes(0)
        .tempdir_in(dir.path())
        .unwrap();
    let _h = make_file(hidden.path(), "b.txt", b"ignored");
    let after = hash_directory(dir.path().to_str().unwrap()).unwrap();
    assert_eq!(before, after);

    // A visible file changes it.
    let _c = make_file(dir.path(), "c.txt", b"more");
    let grown = hash_directory(dir.path().to_str().unwrap()).unwrap();
    assert_ne!(before, grown);
}
