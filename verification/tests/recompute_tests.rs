use beads_server::beads::Bead;
use beads_server::epic::EpicStatusWrite;
use beads_server::recompute::{kept_lines, line_ids_of, record_lines, recompute_epic_lines, rewrite_epic_lines};

fn bead(id: &str, status: &str) -> Bead {
    Bead {
        id: id.to_string(),
        title: "T".to_string(),
        description: None,
        status: status.to_string(),
        priority: None,
        issue_type: None,
        owner: None,
        created_at: None,
        created_by: None,
        updated_at: None,
        closed_at: None,
        close_reason: None,
        comments: None,
        parent_id: None,
        children: None,
        design_doc: None,
        deps: None,
        relates_to: None,
        dependencies: None,
    }
}

#[test]
fn recompute_reads_type_tagged_issues() {
    let contents = [
        "{\"_type\":\"issue\",\"id\":\"e\",\"title\":\"E\",\"status\":\"open\",\"issue_type\":\"epic\"}",
        "{\"_type\":\"memory\",\"key\":\"k\",\"value\":\"v\"}",
        "not json",
        "{\"_type\":\"issue\",\"id\":\"c\",\"title\":\"C\",\"status\":\"in_progress\",\"parent\":\"e\"}",
    ]
    .join("\n");
    let contents = contents.as_str();
    let raw = kept_lines(contents);
    assert_eq!(raw.len(), 3);
    let records = record_lines(contents);
    assert_eq!(records.len(), 2);
    let mut e = bead("e", "open");
    e.issue_type = Some("epic".to_string());
    let mut c = bead("c", "in_progress");
    c.parent_id = Some("e".to_string());
    let (ids, lines) = recompute_epic_lines(&raw, &vec![e, c], "2026-05-01T00:00:00Z");
    assert_eq!(ids, vec!["e".to_string()]);
    let lines = lines.unwrap();
    assert_eq!(lines.len(), 3);
    let first: serde_json::Value = serde_json::from_str(&lines[0]).unwrap();
    assert_eq!(first["status"], "in_progress");
    assert_eq!(first["updated_at"], "2026-05-01T00:00:00Z");
    assert_eq!(first["_type"], "issue");
    let memory: serde_json::Value = serde_json::from_str(&lines[1]).unwrap();
    assert_eq!(memory["key"], "k");
    assert!(lines[2].contains("\"parent\":\"e\""));
}

#[test]
fn recompute_without_changes_writes_nothing() {
    let raw = vec!["{\"id\":\"e\",\"status\":\"in_progress\"}".to_string()];
    let mut e = bead("e", "in_progress");
    e.issue_type = Some("epic".to_string());
    let mut c = bead("c", "in_progress");
    c.parent_id = Some("e".to_string());
    let (ids, lines) = recompute_epic_lines(&raw, &vec![e, c], "now");
    assert!(ids.is_empty());
    assert!(lines.is_none());
}

#[test]
fn rewrite_keeps_original_field_names() {
    let input = r#"{"id":"task-71","title":"Migration","status":"open","parent":"epic-65","dependencies":["task-67"],"related":["task-35"],"closedAt":"2026-02-28T12:00:00Z"}"#;
    let out = rewrite_epic_lines(&vec![input.to_string()], &vec![], "now");
    assert_eq!(out.len(), 1);
    let output = &out[0];
    assert!(output.contains("\"parent\":\"epic-65\""));
    assert!(output.contains("\"dependencies\":[\"task-67\"]"));
    assert!(output.contains("\"related\":[\"task-35\"]"));
    assert!(output.contains("\"closedAt\":\"2026-02-28T12:00:00Z\""));
    assert!(!output.contains("parent_id"));
    assert!(!output.contains("relates_to"));
    assert!(!output.contains("closed_at"));
}

#[test]
fn rewrite_sets_status_on_planned_line_only() {
    let lines = vec!["{\"id\":\"a\",\"status\":\"open\"}".to_string(), "{\"id\":\"b\",\"status\":\"open\"}".to_string()];
    let writes = vec![EpicStatusWrite { line: 1, epic_id: "b".to_string(), status: "inreview".to_string() }];
    let out = rewrite_epic_lines(&lines, &writes, "T");
    let a: serde_json::Value = serde_json::from_str(&out[0]).unwrap();
    let b: serde_json::Value = serde_json::from_str(&out[1]).unwrap();
    assert_eq!(a["status"], "open");
    assert!(a.get("updated_at").is_none());
    assert_eq!(b["status"], "inreview");
    assert_eq!(b["updated_at"], "T");
}

#[test]
fn line_ids_read_string_ids() {
    let lines = vec!["{\"id\":\"a\"}".to_string(), "{\"id\":7}".to_string(), "[1]".to_string()];
    assert_eq!(line_ids_of(&lines), vec![Some("a".to_string()), None, None]);
}
