use claude_monitor::json::parse_json;
use claude_monitor::snapshots::{
    blob_rel, blob_to_read, blob_write, capture_source, captured, check_blob, diff_result, diff_sides,
    hex_lower, is_tracked_tool, looks_binary, partner_id, resolve_target_path, restore_action,
    restore_check, restore_details, revert_target, session_edit_count, session_order, restore_refusal, restored, sanitize_id, session_dir, sha256_hex, short_path,
    snapshot_content, target_field_of, target_if_absolute, BlobWrite, FileMeta, RestoreAction, SnapshotRow, SourceRead,
    MAX_SNAPSHOT_BYTES,
};

const EMPTY_SHA: &str = "e3b0c44298fc1c149afbf4c8996fb92427ae41e4649b934ca495991b7852b855";

fn row(id: i64, phase: &str, paired: Option<i64>) -> SnapshotRow {
    SnapshotRow {
        id,
        session_id: "s1".into(),
        project_path: "/p".into(),
        file_path: "/p/a.txt".into(),
        tool_name: "Edit".into(),
        phase: phase.into(),
        paired_id: paired,
        blob_path: format!("s1/{id}.bin"),
        size_bytes: 3,
        sha256: String::new(),
        is_binary: false,
        oversized: false,
        ts: "2026-05-04T00:00:00Z".into(),
        tool_use_id: None,
    }
}

#[test]
fn tracked_tools_are_the_file_editors() {
    for t in ["Edit", "Write", "MultiEdit", "NotebookEdit"] {
        assert!(is_tracked_tool(t));
    }
    assert!(!is_tracked_tool("Bash"));
    assert!(!is_tracked_tool("edit"));
}

#[test]
fn sanitize_id_replaces_separators_and_dots() {
    assert_eq!(sanitize_id("../etc/passwd"), "___etc_passwd");
    assert_eq!(sanitize_id("abc-DEF_123"), "abc-DEF_123");
    assert_eq!(sanitize_id("a b\\c"), "a_b_c");
    assert_eq!(sanitize_id(""), "_");
    assert_eq!(blob_rel("", 7), "_/7.bin");
}

#[test]
fn blob_paths_are_under_the_sanitized_session() {
    assert_eq!(blob_rel("s/1", 42), "s_1/42.bin");
    assert_eq!(blob_rel("s", -3), "s/-3.bin");
    assert_eq!(session_dir("/data/snapshots", "a/b"), "/data/snapshots/a_b");
}

#[test]
fn looks_binary_checks_only_the_first_8k() {
    assert!(!looks_binary(b"plain text"));
    assert!(looks_binary(b"a\0b"));
    let mut late = vec![b'a'; 8192];
    late.push(0);
    assert!(!looks_binary(&late));
    late[8191] = 0;
    assert!(looks_binary(&late));
}

#[test]
fn sha256_hex_is_lowercase_hex_of_the_digest() {
    assert_eq!(sha256_hex(b""), EMPTY_SHA);
    assert_eq!(
        sha256_hex(b"abc"),
        "ba7816bf8f01cfea414140de5dae2223b00361a396177a9cb410ff61f20015ad"
    );
    assert_eq!(hex_lower(&[0x00, 0x0f, 0xa0, 0xff]), "000fa0ff");
}

#[test]
fn target_path_comes_from_the_tool_input() {
    let input = parse_json(r#"{"file_path":"/tmp/x.rs","notebook_path":"/tmp/n.ipynb"}"#).unwrap();
    assert_eq!(target_field_of("Edit", &input), Some("/tmp/x.rs".to_string()));
    assert_eq!(target_field_of("NotebookEdit", &input), Some("/tmp/n.ipynb".to_string()));
    assert_eq!(target_field_of("Bash", &input), None);
    assert_eq!(resolve_target_path("Write", &input), Some("/tmp/x.rs".to_string()));
    let relative = parse_json(r#"{"file_path":"x.rs"}"#).unwrap();
    assert_eq!(resolve_target_path("Edit", &relative), None);
    let missing = parse_json(r#"{"path":"/x"}"#).unwrap();
    assert_eq!(resolve_target_path("Edit", &missing), None);
}

#[test]
fn short_path_is_the_file_name() {
    assert_eq!(short_path("/a/b/c.txt"), "c.txt");
    assert_eq!(short_path("/"), "/");
}

#[test]
fn capture_source_follows_the_metadata() {
    let file = |len| Some(FileMeta { is_symlink: false, is_file: true, len });
    assert!(matches!(capture_source("Edit", "pre", file(10)), SourceRead::Read));
    assert!(matches!(
        capture_source("Edit", "pre", file(MAX_SNAPSHOT_BYTES + 1)),
        SourceRead::Oversized { size } if size == MAX_SNAPSHOT_BYTES + 1
    ));
    assert!(matches!(capture_source("Edit", "pre", file(MAX_SNAPSHOT_BYTES)), SourceRead::Read));
    match capture_source("Write", "pre", None) {
        SourceRead::Empty { tool_name } => assert_eq!(tool_name, "Write:create"),
        other => panic!("expected empty capture, got {other:?}"),
    }
    match capture_source("Write", "post", None) {
        SourceRead::Empty { tool_name } => assert_eq!(tool_name, "Write"),
        other => panic!("expected empty capture, got {other:?}"),
    }
    let link = Some(FileMeta { is_symlink: true, is_file: false, len: 5 });
    match capture_source("Write", "pre", link) {
        SourceRead::Empty { tool_name } => assert_eq!(tool_name, "Write"),
        other => panic!("expected empty capture, got {other:?}"),
    }
}

#[test]
fn captured_records_bytes_digest_and_kind() {
    let c = captured("Edit", SourceRead::Read, Some(b"abc".to_vec()));
    assert_eq!(c.bytes, b"abc".to_vec());
    assert_eq!(c.size_bytes, 3);
    assert!(!c.oversized && !c.is_binary);
    assert_eq!(c.sha256, sha256_hex(b"abc"));
    assert_eq!(blob_write(&c), BlobWrite::Bytes);

    let e = captured("Edit", SourceRead::Empty { tool_name: "Write:create".into() }, None);
    assert_eq!(e.tool_name, "Write:create");
    assert_eq!(e.sha256, EMPTY_SHA);
    assert!(!e.is_binary);
    assert_eq!(blob_write(&e), BlobWrite::Touch);

    let o = captured("Edit", SourceRead::Oversized { size: 2_000_000 }, None);
    assert!(o.oversized);
    assert_eq!(o.size_bytes, 2_000_000);
    assert_eq!(blob_write(&o), BlobWrite::Skip);

    let b = captured("Edit", SourceRead::Read, Some(vec![1, 0, 2]));
    assert!(b.is_binary);

    let failed = captured("Edit", SourceRead::Read, None);
    assert_eq!(failed.size_bytes, 0);
    assert_eq!(blob_write(&failed), BlobWrite::Touch);
}

#[test]
fn diff_pairs_rows_by_phase() {
    assert_eq!(partner_id(&row(1, "pre", Some(2))), Some(2));
    assert_eq!(partner_id(&row(1, "weird", Some(2))), None);
    let (pre, post) = diff_sides(row(2, "post", Some(1)), Some(row(1, "pre", Some(2))));
    assert_eq!(pre.unwrap().id, 1);
    assert_eq!(post.unwrap().id, 2);
    let (pre, post) = diff_sides(row(3, "pre-restore", Some(1)), Some(row(1, "pre", None)));
    assert_eq!(pre.unwrap().id, 3);
    assert_eq!(post.unwrap().id, 1);
    let (pre, post) = diff_sides(row(4, "other", None), Some(row(1, "pre", None)));
    assert_eq!(pre.unwrap().id, 4);
    assert!(post.is_none());
}

#[test]
fn blobs_are_read_only_for_present_sides_with_bytes() {
    assert_eq!(blob_to_read(&Some(row(7, "pre", None))), Some("s1/7.bin".to_string()));
    let mut big = row(8, "pre", None);
    big.oversized = true;
    assert_eq!(blob_to_read(&Some(big)), None);
    assert_eq!(blob_to_read(&None), None);
}

#[test]
fn diff_renders_unified_lines_and_counts() {
    let d = diff_result(Some(row(1, "pre", Some(2))), Some(row(2, "post", Some(1))), b"a\nb\n", b"a\nc\nd")
        .unwrap();
    assert_eq!(d.unified, " a\n-b\n+c\n+d\n");
    assert_eq!(d.plus, 2);
    assert_eq!(d.minus, 1);
    assert!(!d.is_binary);
    assert_eq!(d.pre.unwrap().id, 1);
}

#[test]
fn diff_suppresses_binary_content() {
    let d = diff_result(None, None, b"\0\x01", b"text").unwrap();
    assert!(d.is_binary);
    assert_eq!(d.unified, "(binary content — diff suppressed)");
    assert_eq!((d.plus, d.minus), (0, 0));
}

#[test]
fn restore_refusals_in_order() {
    assert_eq!(restore_refusal(false, true, true).unwrap(), "snapshot has non-absolute target path");
    assert_eq!(restore_refusal(true, true, true).unwrap(), "refusing to overwrite a symlink target");
    assert_eq!(
        restore_refusal(true, false, true).unwrap(),
        "snapshot is oversized — restore not supported"
    );
    assert_eq!(restore_refusal(true, false, false), None);
}

#[test]
fn restoring_a_create_snapshot_deletes_the_file() {
    let mut r = row(1, "pre", None);
    r.tool_name = "Write:create".into();
    assert_eq!(restore_action(&r), RestoreAction::DeleteTarget);
    r.phase = "post".into();
    assert_eq!(restore_action(&r), RestoreAction::WriteBlob);
}

#[test]
fn blob_integrity_is_checked_against_the_recorded_digest() {
    assert!(check_blob(b"", EMPTY_SHA).is_ok());
    assert_eq!(
        check_blob(b"x", EMPTY_SHA).unwrap_err(),
        "snapshot integrity check failed (sha256 mismatch)"
    );
    let c = captured("Edit", SourceRead::Read, Some(b"payload".to_vec()));
    assert!(check_blob(&c.bytes, &c.sha256).is_ok());
}

#[test]
fn restore_reports() {
    assert_eq!(restore_details(5, 9, false), "restored snapshot_id=5 pre_restore_id=9");
    assert_eq!(restore_details(5, 9, true), "restored snapshot_id=5 pre_restore_id=9 deleted");
    let r = restored(9, true);
    assert!(r.ok && r.deleted_target);
    assert_eq!(r.pre_restore_snapshot_id, Some(9));
    assert_eq!(r.message, "restored");
}

#[test]
fn content_is_base64_of_at_most_a_megabyte() {
    let r = row(1, "pre", None);
    assert_eq!(snapshot_content(&r, b"hi").base64, "aGk=");
    let mut big = row(2, "pre", None);
    big.oversized = true;
    assert_eq!(snapshot_content(&big, b"hi").base64, "");
    let long = vec![b'a'; MAX_SNAPSHOT_BYTES as usize + 3];
    let c = snapshot_content(&r, &long);
    assert_eq!(c.base64.len(), (MAX_SNAPSHOT_BYTES as usize + 2) / 3 * 4);
}

#[test]
fn target_is_kept_only_when_absolute() {
    let input = parse_json(r#"{"file_path":"/tmp/x.rs"}"#).unwrap();
    assert_eq!(target_if_absolute("Edit", &input, true), Some("/tmp/x.rs".to_string()));
    assert_eq!(target_if_absolute("Edit", &input, false), None);
    assert_eq!(target_if_absolute("Read", &input, true), None);
}

#[test]
fn short_path_of_plain_names() {
    assert_eq!(short_path("notes.md"), "notes.md");
    assert_eq!(short_path("src/lib.rs"), "lib.rs");
    assert_eq!(short_path("/home/u/p/main.rs"), "main.rs");
}

#[test]
fn restore_refuses_relative_targets() {
    let mut r = row(1, "pre", None);
    r.file_path = "a.txt".into();
    assert_eq!(restore_check(&r, false), Some("snapshot has non-absolute target path".to_string()));
    let ok = row(2, "pre", None);
    assert_eq!(restore_check(&ok, false), None);
    assert_eq!(restore_check(&ok, true), Some("refusing to overwrite a symlink target".to_string()));
}

#[test]
fn history_lists_sessions_in_first_seen_order() {
    let mut a = row(1, "post", Some(2));
    a.session_id = "s2".into();
    let b = row(2, "pre", Some(1));
    let c = row(3, "post", None);
    let mut d = row(4, "post", None);
    d.session_id = "s2".into();
    let rows = vec![a, b, c, d];
    assert_eq!(session_order(&rows), vec!["s2".to_string(), "s1".to_string()]);
    assert_eq!(session_edit_count(&rows, "s2"), 2);
    assert_eq!(session_edit_count(&rows, "s1"), 1);
    assert_eq!(revert_target(&rows[0]), Some(2));
    assert_eq!(revert_target(&rows[1]), Some(2));
    assert_eq!(revert_target(&rows[2]), None);
}
