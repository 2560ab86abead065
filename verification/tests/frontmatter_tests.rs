//! Tests for the metadata-block engine.

use driftwatcher::errors::DriftError;
use driftwatcher::frontmatter::{
    add_driftwatcher_to_existing, add_empty_frontmatter, add_entry, init_document, parse,
    update_entry, InitAction,
};

#[test]
fn test_parse_empty_frontmatter() {
    let content = "---\ndriftwatcher:\n---\n# Doc";
    let fm = parse(content).unwrap().unwrap();
    assert!(fm.entries.is_empty());
    assert!(fm.has_driftwatcher());
}

#[test]
fn test_parse_with_entries() {
    let content = r#"---
driftwatcher:
  - "src/main.rs": abc123def456
  - "lib/**/*.rs": 789xyz
---
# Doc"#;
    let fm = parse(content).unwrap().unwrap();
    assert_eq!(fm.entries.len(), 2);
    assert_eq!(fm.entries[0].pattern, "src/main.rs");
    assert_eq!(fm.entries[0].hash, Some("abc123def456".to_string()));
}

#[test]
fn test_parse_no_frontmatter() {
    let content = "# Just a doc\nNo frontmatter here.";
    let fm = parse(content).unwrap();
    assert!(fm.is_none());
}

#[test]
fn test_add_empty_frontmatter() {
    let content = "# My Doc\nSome content.";
    let result = add_empty_frontmatter(content);
    assert!(result.starts_with("---\ndriftwatcher:\n---\n"));
    assert!(result.contains("# My Doc"));
}

#[test]
fn test_parse_with_other_frontmatter() {
    let content = r#"---
title: My Doc
author: Someone
driftwatcher:
  - "src/main.rs": abc123
---
# Content"#;
    let fm = parse(content).unwrap().unwrap();
    assert_eq!(fm.entries.len(), 1);
}

#[test]
fn test_parse_unclosed_block() {
    let content = "---\ndriftwatcher:\nno closing delimiter";
    assert_eq!(parse(content).unwrap_err(), DriftError::MalformedBlock);
}

#[test]
fn test_parse_invalid_block_body() {
    let content = "---\nnot: [unclosed\n---\n# Doc";
    assert_eq!(parse(content).unwrap_err(), DriftError::ParseError);
}

#[test]
fn test_parse_entry_without_hash() {
    let content = "---\ndriftwatcher:\n  - \"src/main.rs\":\n---\n# Doc";
    let fm = parse(content).unwrap().unwrap();
    assert_eq!(fm.entries.len(), 1);
    assert_eq!(fm.entries[0].pattern, "src/main.rs");
    assert_eq!(fm.entries[0].hash, None);
}

#[test]
fn test_add_entry_prepends() {
    let content = "---\ndriftwatcher:\n  - \"old.rs\": aaa\n---\n# Doc";
    let updated = add_entry(content, "new.rs", "bbb").unwrap();
    let fm = parse(&updated).unwrap().unwrap();
    assert_eq!(fm.entries.len(), 2);
    assert_eq!(fm.entries[0].pattern, "new.rs");
    assert_eq!(fm.entries[0].hash, Some("bbb".to_string()));
}

#[test]
fn test_add_entry_promotes_foreign_block() {
    let content = "---\ntitle: My Doc\n---\n# Body";
    let updated = add_entry(content, "src/lib.rs", "ccc").unwrap();
    let fm = parse(&updated).unwrap().unwrap();
    assert!(fm.has_driftwatcher());
    assert_eq!(fm.entries.len(), 1);
    assert_eq!(fm.entries[0].pattern, "src/lib.rs");
    assert!(updated.contains("title: My Doc"));
}

#[test]
fn test_add_entry_without_block_fails() {
    let content = "# Doc with no block";
    assert_eq!(add_entry(content, "a.rs", "x").unwrap_err(), DriftError::BlockNotFound);
}

#[test]
fn test_update_entry_rewrites_hash() {
    let content = "---\ndriftwatcher:\n  - \"src/main.rs\": aaa\n---\n# Doc\n";
    let updated = update_entry(content, "src/main.rs", "bbb").unwrap();
    assert_eq!(updated, "---\ndriftwatcher:\n  - \"src/main.rs\": bbb\n---\n# Doc\n");
}

#[test]
fn test_update_entry_single_quoted() {
    let content = "---\ndriftwatcher:\n  - 'src/main.rs': aaa\n---\n# Doc\n";
    let updated = update_entry(content, "src/main.rs", "bbb").unwrap();
    assert!(updated.contains("  - \"src/main.rs\": bbb"));
}

#[test]
fn test_update_entry_unquoted() {
    let content = "---\ndriftwatcher:\n  - src/main.rs: aaa\n---\n# Doc\n";
    let updated = update_entry(content, "src/main.rs", "bbb").unwrap();
    assert!(updated.contains("  - \"src/main.rs\": bbb"));
}

#[test]
fn test_update_entry_missing_fails_and_changes_nothing() {
    let content = "---\ndriftwatcher:\n  - \"src/main.rs\": aaa\n---\n# Doc\n";
    assert_eq!(update_entry(content, "absent.rs", "bbb").unwrap_err(), DriftError::EntryNotFound);
}

#[test]
fn test_update_entry_same_hash_is_textually_identity() {
    let content = "---\ndriftwatcher:\n  - \"src/main.rs\": aaa\n---\n# Doc body stays.\n";
    let updated = update_entry(content, "src/main.rs", "aaa").unwrap();
    assert_eq!(updated, content);
}

#[test]
fn test_tracked_block_with_zero_entries() {
    let content = "---\ndriftwatcher:\n---\nBody";
    let fm = parse(content).unwrap().unwrap();
    assert!(fm.has_driftwatcher());
    assert!(fm.entries.is_empty());
    let (text, action) = init_document(content).unwrap();
    assert_eq!(action, InitAction::AlreadyTracked);
    assert_eq!(text, content);
}

#[test]
fn test_init_document_without_block() {
    let content = "# Doc\n";
    let (text, action) = init_document(content).unwrap();
    assert_eq!(action, InitAction::CreatedBlock);
    assert_eq!(text, "---\ndriftwatcher:\n---\n# Doc\n");
}

#[test]
fn test_init_document_promotes_foreign_block() {
    let content = "---\ntitle: Doc\n---\nBody";
    let (text, action) = init_document(content).unwrap();
    assert_eq!(action, InitAction::PromotedExisting);
    assert_eq!(text, "---\ntitle: Doc\ndriftwatcher:\n---\nBody");
    let fm = parse(&text).unwrap().unwrap();
    assert!(fm.has_driftwatcher());
}

#[test]
fn test_has_pattern() {
    let content = "---\ndriftwatcher:\n  - \"a.rs\": x\n---\n";
    let fm = parse(content).unwrap().unwrap();
    assert!(fm.has_pattern("a.rs"));
    assert!(!fm.has_pattern("b.rs"));
}
