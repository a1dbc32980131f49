//! File naming, bucket serialization and feature-flag parsing.

use altius::output::{block_filename, flag_enabled, render_group};

#[test]
fn filename_from_block_id() {
    let name = block_filename(&Some(b"42".to_vec()));
    assert_eq!(name, b"block_42.json".to_vec());
}

#[test]
fn filename_fallback_without_id() {
    let name = block_filename(&None);
    assert_eq!(name, b"block_unknown.json".to_vec());
}

#[test]
fn group_rendered_as_bracketed_array() {
    let data = vec![b"{\"a\":1}".to_vec(), b"{\"b\":2}".to_vec(), b"{\"c\":3}".to_vec()];
    let doc = render_group(&data);
    assert_eq!(
        String::from_utf8(doc).unwrap(),
        "[\n{\"a\":1},\n{\"b\":2},\n{\"c\":3}\n]"
    );
}

#[test]
fn group_with_one_line_has_no_separator() {
    let data = vec![b"{\"a\":1}".to_vec()];
    let doc = render_group(&data);
    assert_eq!(String::from_utf8(doc).unwrap(), "[\n{\"a\":1}\n]");
}

#[test]
fn empty_group_renders_empty_array() {
    let data: Vec<Vec<u8>> = Vec::new();
    let doc = render_group(&data);
    assert_eq!(String::from_utf8(doc).unwrap(), "[\n\n]");
}

#[test]
fn rendered_group_parses_as_json_array() {
    let data = vec![b"{\"a\":1}".to_vec(), b"{\"b\":2}".to_vec()];
    let doc = render_group(&data);
    let v: serde_json::Value = serde_json::from_slice(&doc).unwrap();
    assert_eq!(v.as_array().unwrap().len(), 2);
}

#[test]
fn flag_true_values_enable() {
    assert!(flag_enabled(b"true"));
    assert!(flag_enabled(b"TRUE"));
    assert!(flag_enabled(b"True"));
    assert!(flag_enabled(b"1"));
}

#[test]
fn flag_other_values_disable() {
    assert!(!flag_enabled(b"false"));
    assert!(!flag_enabled(b"0"));
    assert!(!flag_enabled(b""));
    assert!(!flag_enabled(b"yes"));
    assert!(!flag_enabled(b"true "));
    assert!(!flag_enabled(b"10"));
}
