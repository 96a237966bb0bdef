use beads_server::beads::{Bead, Comment, LegacyDependency, RawDependencies};
use beads_server::epic::{compute_epic_status_from_children, compute_epic_updates, plan_epic_status_writes};
use beads_server::links::{parent_candidate_of, post_process_beads};
use beads_server::sources::list_attempts;
use beads_server::sources::{
    bead_has_comment_after, classify_line, dolt_port_from, extract_json_array, is_non_issue_record,
    issue_lines, merge_jsonl_comments, nonblank_lines, normalize_path, port_from_file, port_from_log,
    strip_dolt_prefix, sync_branch, tally_statuses, LineKind, DOLT_PATH_PREFIX,
};

fn bead(id: &str, status: &str) -> Bead {
    Bead {
        id: id.to_string(),
        title: "T".to_string(),
        description: None,
        status: status.to_string(),
        priority: None,
        issue_type: None,
        owner: None,
        created_at: None,
        created_by: None,
        updated_at: None,
        closed_at: None,
        close_reason: None,
        comments: None,
        parent_id: None,
        children: None,
        design_doc: None,
        deps: None,
        relates_to: None,
        dependencies: None,
    }
}

fn comment(issue: &str, created_at: &str) -> Comment {
    Comment {
        id: "1".to_string(),
        issue_id: issue.to_string(),
        author: "a".to_string(),
        text: "c".to_string(),
        created_at: created_at.to_string(),
    }
}

// ── is_non_issue_record ──────────────────────────────────────────────

#[test]
fn test_is_non_issue_record_memory() {
    assert!(is_non_issue_record(r#"{"_type":"memory","key":"k","value":"v"}"#));
}

#[test]
fn test_is_non_issue_record_issue() {
    assert!(!is_non_issue_record(r#"{"id":"x-1","title":"T","status":"open"}"#));
}

#[test]
fn test_is_non_issue_record_garbage() {
    assert!(!is_non_issue_record("not json"));
}

#[test]
fn test_is_non_issue_record_issue_with_type_tag() {
    assert!(!is_non_issue_record(r#"{"_type":"issue","id":"x-1","title":"T","status":"open"}"#));
}

// ── bead_has_comment_after ───────────────────────────────────────────

#[test]
fn test_bead_has_comment_after_true_for_newer_comment() {
    let mut b = bead("x-1", "open");
    b.comments = Some(vec![comment("x-1", "2026-07-01T16:52:43Z")]);
    assert!(bead_has_comment_after(&b, "2026-07-01T15:17:18Z"));
}

#[test]
fn test_bead_has_comment_after_false_for_older_comment() {
    let mut b = bead("x-1", "open");
    b.comments = Some(vec![comment("x-1", "2026-06-01T00:00:00Z")]);
    assert!(!bead_has_comment_after(&b, "2026-07-01T15:17:18Z"));
}

#[test]
fn test_bead_has_comment_after_false_with_no_comments() {
    let b = bead("x-1", "open");
    assert!(!bead_has_comment_after(&b, "2026-07-01T15:17:18Z"));
}

#[test]
fn bead_has_comment_after_equal_time_is_not_after() {
    let mut b = bead("x-1", "open");
    b.comments = Some(vec![comment("x-1", "2026-07-01T15:17:18Z")]);
    assert!(!bead_has_comment_after(&b, "2026-07-01T15:17:18Z"));
}

// ── compute_epic_status_from_children ────────────────────────────────

#[test]
fn test_compute_epic_status_any_in_progress() {
    let statuses = vec!["open", "in_progress", "closed"];
    assert_eq!(compute_epic_status_from_children(&statuses), Some("in_progress"));
}

#[test]
fn test_compute_epic_status_all_open() {
    let statuses = vec!["open", "open", "open"];
    assert_eq!(compute_epic_status_from_children(&statuses), Some("open"));
}

#[test]
fn test_compute_epic_status_all_inreview_or_closed_with_inreview() {
    let statuses = vec!["inreview", "closed", "inreview"];
    assert_eq!(compute_epic_status_from_children(&statuses), Some("inreview"));
}

#[test]
fn test_compute_epic_status_all_closed() {
    let statuses = vec!["closed", "closed"];
    assert_eq!(compute_epic_status_from_children(&statuses), Some("inreview"));
}

#[test]
fn test_compute_epic_status_mixed_open_closed() {
    let statuses = vec!["open", "closed"];
    assert_eq!(compute_epic_status_from_children(&statuses), None);
}

#[test]
fn test_compute_epic_status_empty() {
    let statuses: Vec<&str> = vec![];
    assert_eq!(compute_epic_status_from_children(&statuses), None);
}

#[test]
fn test_compute_epic_status_single_in_progress() {
    let statuses = vec!["in_progress"];
    assert_eq!(compute_epic_status_from_children(&statuses), Some("in_progress"));
}

#[test]
fn test_compute_epic_status_single_inreview() {
    let statuses = vec!["inreview"];
    assert_eq!(compute_epic_status_from_children(&statuses), Some("inreview"));
}

#[test]
fn epic_status_unknown_status_changes_nothing() {
    let statuses = vec!["blocked", "open"];
    assert_eq!(compute_epic_status_from_children(&statuses), None);
}

// ── parent inference from dotted ids ─────────────────────────────────

#[test]
fn test_infer_parent_from_id_pattern() {
    let parent = parent_candidate_of("64n.1");
    assert!(parent.is_some());
    assert_eq!(parent.unwrap(), "64n");
}

#[test]
fn test_infer_parent_multiple_dots() {
    let parent = parent_candidate_of("prefix.64n.1");
    assert!(parent.is_some());
    assert_eq!(parent.unwrap(), "prefix.64n");
}

#[test]
fn test_no_inference_without_dot() {
    assert!(parent_candidate_of("simple-id").is_none());
}

// ── post_process_beads ───────────────────────────────────────────────

#[test]
fn post_process_infers_parent_and_children() {
    let beads = vec![bead("64n", "open"), bead("64n.2", "open"), bead("64n.1", "open"), bead("x.9", "open")];
    let out = post_process_beads(beads);
    assert_eq!(out.len(), 4);
    assert_eq!(out[1].parent_id.as_deref(), Some("64n"));
    assert_eq!(out[2].parent_id.as_deref(), Some("64n"));
    assert_eq!(out[3].parent_id, None);
    assert_eq!(out[0].children, Some(vec!["64n.2".to_string(), "64n.1".to_string()]));
}

#[test]
fn post_process_reads_legacy_dependencies() {
    let mut child = bead("bead-a", "open");
    child.dependencies = Some(RawDependencies::Legacy(vec![
        LegacyDependency { depends_on_id: "bead-b".to_string(), dep_type: "relates-to".to_string() },
        LegacyDependency { depends_on_id: "bead-c".to_string(), dep_type: "parent-child".to_string() },
        LegacyDependency { depends_on_id: "bead-d".to_string(), dep_type: "blocks".to_string() },
    ]));
    let beads = vec![bead("bead-c", "open"), child];
    let out = post_process_beads(beads);
    assert_eq!(out[1].parent_id.as_deref(), Some("bead-c"));
    assert_eq!(out[1].relates_to, Some(vec!["bead-b".to_string()]));
    assert_eq!(out[1].deps, Some(vec!["bead-d".to_string()]));
    assert!(out[1].dependencies.is_none());
    assert_eq!(out[0].children, Some(vec!["bead-a".to_string()]));
}

#[test]
fn post_process_sorts_linked_children_without_duplicates() {
    let mut b = bead("t-2", "open");
    b.parent_id = Some("epic".to_string());
    let mut a = bead("t-1", "open");
    a.parent_id = Some("epic".to_string());
    a.dependencies = Some(RawDependencies::StringIds(vec!["t-2".to_string()]));
    let beads = vec![bead("epic", "open"), b, a];
    let out = post_process_beads(beads);
    assert_eq!(out[0].children, Some(vec!["t-1".to_string(), "t-2".to_string()]));
    assert_eq!(out[2].deps, Some(vec!["t-2".to_string()]));
}

// ── epic recomputation ───────────────────────────────────────────────

#[test]
fn epic_updates_follow_children() {
    let mut epic = bead("e", "open");
    epic.issue_type = Some("epic".to_string());
    let mut c1 = bead("c1", "in_progress");
    c1.parent_id = Some("e".to_string());
    let c2 = bead("e.1", "open");
    let beads = vec![epic, c1, c2];
    let updates = compute_epic_updates(&beads);
    assert_eq!(updates, vec![("e".to_string(), "in_progress".to_string())]);
    let lines = vec![None, Some("x".to_string()), Some("e".to_string())];
    let writes = plan_epic_status_writes(&lines, &updates);
    assert_eq!(writes.len(), 1);
    assert_eq!(writes[0].line, 2);
    assert_eq!(writes[0].epic_id, "e");
    assert_eq!(writes[0].status, "in_progress");
}

#[test]
fn epic_updates_skip_closed_epics() {
    let mut epic = bead("e", "closed");
    epic.issue_type = Some("epic".to_string());
    let mut c1 = bead("c1", "in_progress");
    c1.parent_id = Some("e".to_string());
    let updates = compute_epic_updates(&vec![epic, c1]);
    assert!(updates.is_empty());
}

// ── DOLT_PATH_PREFIX ─────────────────────────────────────────────────

#[test]
fn test_dolt_path_prefix_is_correct() {
    assert_eq!(DOLT_PATH_PREFIX, "dolt://");
    let path = "dolt://beads_mydb";
    let db_name = path.strip_prefix(DOLT_PATH_PREFIX);
    assert_eq!(db_name, Some("beads_mydb"));
    assert_eq!(strip_dolt_prefix(path).as_deref(), Some("beads_mydb"));
}

#[test]
fn strip_dolt_prefix_leaves_paths_alone() {
    assert_eq!(strip_dolt_prefix("/home/me/project"), None);
}

#[test]
fn normalize_path_turns_backslashes() {
    assert_eq!(normalize_path("C:\\repos\\app"), "C:/repos/app");
}

// ── extract_json_array ───────────────────────────────────────────────

#[test]
fn test_extract_json_array_clean() {
    let output = r#"[{"id":"test-1","title":"T","status":"open"}]"#;
    assert_eq!(extract_json_array(output).unwrap(), output);
}

#[test]
fn test_extract_json_array_with_prefix() {
    let output = "Warning: something\n2026/03/17 migration...\nFlushed working set\n[{\"id\":\"test-1\"}]";
    let result = extract_json_array(output).unwrap();
    assert!(result.starts_with('['));
}

#[test]
fn test_extract_json_array_no_json() {
    let output = "Error: something went wrong";
    assert!(extract_json_array(output).is_err());
}

#[test]
fn extract_json_array_error_quotes_output() {
    let output = "Error: something went wrong";
    assert_eq!(
        extract_json_array(output).unwrap_err(),
        "No JSON array found in output: Error: something went wrong"
    );
    let long = "x".repeat(300);
    let err = extract_json_array(&long).unwrap_err();
    assert_eq!(err.len(), "No JSON array found in output: ".len() + 200);
}

#[test]
fn test_extract_json_array_with_bd_v061_output() {
    let output = "Warning: Dolt server endpoint changed: port 14302 → 50726 (auto-start)\n\
        \x20 Previous port was unreachable.\n\
        2026/03/17 22:44:01 migration 010: converting events.id from bigint to CHAR(36) UUID\n\
        2026/03/17 22:44:01 migration 010: events.id migrated to CHAR(36) UUID successfully\n\
        Flushed working set for 1 database(s) before server stop\n\
        [{\"id\":\"test-1\",\"title\":\"Test\",\"status\":\"open\"}]";
    let result = extract_json_array(output).unwrap();
    assert!(result.starts_with('['));
    let beads: serde_json::Value = serde_json::from_str(result).unwrap();
    let beads = beads.as_array().unwrap();
    assert_eq!(beads.len(), 1);
    assert_eq!(beads[0]["id"], "test-1");
}

#[test]
fn test_extract_json_array_with_empty_array() {
    let output = "Flushed working set\n[]";
    let result = extract_json_array(output).unwrap();
    let beads: serde_json::Value = serde_json::from_str(result).unwrap();
    assert_eq!(beads.as_array().unwrap().len(), 0);
}

// ── JSONL lines ──────────────────────────────────────────────────────

#[test]
fn jsonl_lines_are_trimmed_and_filtered() {
    let text = "  {\"id\":\"a\"}  \r\n\n{\"_type\":\"memory\",\"key\":\"k\"}\n   \n{\"_type\":\"issue\",\"id\":\"b\"}";
    let lines = nonblank_lines(text);
    assert_eq!(lines.len(), 3);
    assert_eq!(lines[0], "{\"id\":\"a\"}");
    let issues = issue_lines(text);
    assert_eq!(issues, vec!["{\"id\":\"a\"}".to_string(), "{\"_type\":\"issue\",\"id\":\"b\"}".to_string()]);
}

#[test]
fn classify_line_kinds() {
    assert!(matches!(classify_line("not json"), LineKind::Invalid));
    assert!(matches!(classify_line("{\"_type\":\"memory\",\"key\":\"k\"}"), LineKind::Service));
    assert!(matches!(classify_line("{\"_type\":\"issue\",\"id\":\"b\"}"), LineKind::Record));
    assert!(matches!(classify_line("{\"id\":\"b\"}"), LineKind::Record));
    assert!(matches!(classify_line("[1,2]"), LineKind::Record));
}

// ── merging CLI beads with the JSONL export ──────────────────────────

#[test]
fn merge_takes_comments_and_appends_newly_commented() {
    let cli = vec![bead("a", "open"), bead("a", "open"), bead("b", "open")];
    let mut ja = bead("a", "open");
    ja.comments = Some(vec![comment("a", "2026-01-01T00:00:00Z")]);
    let mut jc = bead("c", "open");
    jc.comments = Some(vec![comment("c", "2026-07-02T00:00:00Z")]);
    let mut jd = bead("d", "open");
    jd.comments = Some(vec![comment("d", "2026-01-01T00:00:00Z")]);
    let merged = merge_jsonl_comments(cli, vec![ja, jc, jd], Some("2026-07-01T00:00:00Z"));
    assert_eq!(merged.len(), 4);
    assert_eq!(merged[0].comments.as_ref().unwrap().len(), 1);
    assert!(merged[1].comments.is_none());
    assert!(merged[2].comments.is_none());
    assert_eq!(merged[3].id, "c");
}

#[test]
fn merge_without_time_appends_nothing() {
    let mut jc = bead("c", "open");
    jc.comments = Some(vec![comment("c", "2026-07-02T00:00:00Z")]);
    let merged = merge_jsonl_comments(vec![bead("a", "open")], vec![jc], None);
    assert_eq!(merged.len(), 1);
    assert_eq!(merged[0].id, "a");
}

// ── counts ───────────────────────────────────────────────────────────

#[test]
fn tally_counts_each_status() {
    let beads = vec![
        bead("1", "open"),
        bead("2", "closed"),
        bead("3", "open"),
        bead("4", "inreview"),
        bead("5", "in_progress"),
        bead("6", "blocked"),
    ];
    assert_eq!(tally_statuses(&beads), (2, 1, 1, 1));
}

// ── Dolt port and sync branch ────────────────────────────────────────

#[test]
fn port_from_file_trims() {
    assert_eq!(port_from_file(" 3307\n"), Some(3307));
    assert_eq!(port_from_file("abc"), None);
    assert_eq!(port_from_file("70000"), None);
}

#[test]
fn port_from_log_reads_marker() {
    let log = "starting\nINFO HP=\"127.0.0.1:50726\" ready\n";
    assert_eq!(port_from_log(log), Some(50726));
    assert_eq!(port_from_log("no marker here"), None);
    assert_eq!(port_from_log("HP=\"127.0.0.1:123"), None);
}

#[test]
fn dolt_port_prefers_port_file() {
    assert_eq!(dolt_port_from(Some("4000"), Some("HP=\"127.0.0.1:5000\"")), Some(4000));
    assert_eq!(dolt_port_from(Some("junk"), Some("HP=\"127.0.0.1:5000\"")), Some(5000));
    assert_eq!(dolt_port_from(None, None), None);
}

#[test]
fn sync_branch_from_config() {
    assert_eq!(sync_branch("sync-branch: \"beads-sync\"\n").as_deref(), Some("beads-sync"));
    assert_eq!(sync_branch("sync-branch: beads-sync\n").as_deref(), Some("beads-sync"));
    assert_eq!(sync_branch("issue-prefix: myproject\nsync-branch: beads-sync\nno-db: true\n").as_deref(), Some("beads-sync"));
    assert_eq!(sync_branch("sync-branch: \"my branch\"\n").as_deref(), Some("my branch"));
    assert_eq!(sync_branch("# sync-branch: \"beads-sync\"\n"), None);
    assert_eq!(sync_branch("sync-branch: [invalid: yaml: {{\n"), None);
    assert_eq!(sync_branch("sync-branch: \"\"\n"), None);
    assert_eq!(sync_branch("sync-branch: null\n"), None);
    assert_eq!(sync_branch(""), None);
}

#[test]
fn sync_branch_commented_out() {
    assert_eq!(sync_branch("# sync-branch: \"beads-sync\"\n"), None);
}

#[test]
fn sync_branch_empty_config() {
    assert_eq!(sync_branch(""), None);
}

#[test]
fn sync_branch_null_value() {
    assert_eq!(sync_branch("sync-branch: null\n"), None);
}

#[test]
fn sync_branch_unquoted() {
    assert_eq!(sync_branch("sync-branch: beads-sync\n").as_deref(), Some("beads-sync"));
}

#[test]
fn sync_branch_among_other_keys() {
    assert_eq!(
        sync_branch("issue-prefix: myproject\nsync-branch: beads-sync\nno-db: true\n").as_deref(),
        Some("beads-sync")
    );
}

#[test]
fn sync_branch_with_spaces() {
    assert_eq!(sync_branch("sync-branch: \"my branch\"\n").as_deref(), Some("my branch"));
}

#[test]
fn list_attempts_fall_back_to_full_listing() {
    assert_eq!(
        list_attempts(Some("2026-01-01T00:00:00Z")),
        vec![
            vec!["list", "--json", "--all", "--updated-after=2026-01-01T00:00:00Z"],
            vec!["list", "--json", "--all"],
        ]
    );
    assert_eq!(list_attempts(None), vec![vec!["list", "--json", "--all"]]);
}
