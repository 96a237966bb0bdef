use beads_server::beads::{CreateBeadRequest, UpdateBeadRequest};
use beads_server::reading::{read_start, read_step, ReadAction, ReadEvent, ReadState};
use beads_server::requests::{
    check_create, check_update, create_args, create_reply, created_id, dolt_bead_id, dolt_write_reply,
    millis_stamp, update_args, update_reply, BeadReply, CommandOutcome,
};

fn create_req(path: &str, title: &str) -> CreateBeadRequest {
    CreateBeadRequest {
        path: path.to_string(),
        title: title.to_string(),
        description: None,
        issue_type: None,
        priority: None,
        parent_id: None,
    }
}

#[test]
fn create_requires_title() {
    let err = check_create(&create_req("/p", "   ")).err().unwrap();
    assert_eq!(err.status, 400);
    assert_eq!(err.error, "Title is required");
}

#[test]
fn create_fills_defaults_and_clamps() {
    let plan = check_create(&create_req("/p", "  New feature ")).ok().unwrap();
    assert_eq!(plan.title, "New feature");
    assert_eq!(plan.issue_type, "task");
    assert_eq!(plan.priority, 2);
    let mut req = create_req("/p", "x");
    req.priority = Some(9);
    assert_eq!(check_create(&req).ok().unwrap().priority, 4);
    req.priority = Some(-3);
    assert_eq!(check_create(&req).ok().unwrap().priority, 0);
}

#[test]
fn create_args_in_order() {
    let req = CreateBeadRequest {
        path: "/projects/my-app".to_string(),
        title: "New feature".to_string(),
        description: Some("Implement the thing".to_string()),
        issue_type: Some("feature".to_string()),
        priority: Some(1),
        parent_id: Some("EPIC-001".to_string()),
    };
    let plan = check_create(&req).ok().unwrap();
    assert_eq!(
        create_args(&req, &plan),
        vec![
            "create".to_string(),
            "--title=New feature".to_string(),
            "-d=Implement the thing".to_string(),
            "--type=feature".to_string(),
            "--priority=1".to_string(),
            "--parent=EPIC-001".to_string(),
        ]
    );
    let mut blank = create_req("/p", "T");
    blank.description = Some("  ".to_string());
    let plan = check_create(&blank).ok().unwrap();
    assert_eq!(create_args(&blank, &plan), vec!["create", "--title=T", "--type=task", "--priority=2"]);
}

#[test]
fn dolt_ids() {
    assert_eq!(dolt_bead_id("beads_myproject", "123456"), "myproject-123456");
    assert_eq!(dolt_bead_id("other", "9"), "other-9");
    assert_eq!(millis_stamp(1_712_345_678_901).as_deref(), Some("5678901"));
    assert_eq!(millis_stamp(12345), None);
}

#[test]
fn created_id_from_output() {
    assert_eq!(created_id("\n  beads-abc  \nmore"), "beads-abc");
    assert_eq!(created_id("Created issue beads-xyz\n"), "beads-xyz");
    assert_eq!(created_id("  \n "), "");
}

#[test]
fn create_replies() {
    let (s, r) = create_reply(&CommandOutcome::Finished {
        success: true,
        stdout: "Created b-1\n".to_string(),
        stderr: String::new(),
    });
    assert_eq!(s, 201);
    assert!(matches!(r, BeadReply::Created { ref id, stdout: Some(ref out) } if id == "b-1" && out == "Created b-1"));
    let (s, r) = create_reply(&CommandOutcome::Finished {
        success: false,
        stdout: String::new(),
        stderr: " bad \n".to_string(),
    });
    assert_eq!(s, 500);
    assert!(matches!(r, BeadReply::Error(ref e) if e == "bad"));
    let (s, r) = create_reply(&CommandOutcome::SpawnFailed("no such file".to_string()));
    assert_eq!(s, 500);
    assert!(matches!(r, BeadReply::Error(ref e) if e == "Failed to execute bd: no such file"));
    let (s, r) = create_reply(&CommandOutcome::TimedOut);
    assert_eq!(s, 504);
    assert!(matches!(r, BeadReply::Error(ref e) if e == "bd command timed out"));
}

#[test]
fn update_checks() {
    let req = UpdateBeadRequest {
        path: "/p".to_string(),
        id: " ".to_string(),
        title: Some("x".to_string()),
        description: None,
        status: None,
    };
    let err = check_update(&req).err().unwrap();
    assert_eq!((err.status, err.error.as_str()), (400, "Bead ID is required"));
    let req = UpdateBeadRequest { path: "/p".to_string(), id: "BUG-007".to_string(), title: None, description: None, status: None };
    let err = check_update(&req).err().unwrap();
    assert_eq!((err.status, err.error.as_str()), (400, "No fields to update"));
}

#[test]
fn update_args_in_order() {
    let req = UpdateBeadRequest {
        path: "/projects/my-app".to_string(),
        id: "TASK-042".to_string(),
        title: Some("Updated title".to_string()),
        description: Some("Updated desc".to_string()),
        status: Some("in_progress".to_string()),
    };
    assert!(check_update(&req).is_ok());
    assert_eq!(
        update_args(&req),
        vec!["update", "TASK-042", "--title=Updated title", "-d=Updated desc", "--status=in_progress"]
    );
    let (s, r) = update_reply(&CommandOutcome::Finished { success: true, stdout: String::new(), stderr: String::new() });
    assert_eq!(s, 200);
    assert!(matches!(r, BeadReply::Success));
}

#[test]
fn dolt_write_replies() {
    let (s, r) = dolt_write_reply(Ok(()), Some("db-1".to_string()));
    assert_eq!(s, 201);
    assert!(matches!(r, BeadReply::Created { ref id, stdout: None } if id == "db-1"));
    let (s, _) = dolt_write_reply(Ok(()), None);
    assert_eq!(s, 200);
    let (s, r) = dolt_write_reply(Err("down".to_string()), None);
    assert_eq!(s, 500);
    assert!(matches!(r, BeadReply::Error(ref e) if e == "down"));
}

#[test]
fn read_dolt_path() {
    let (st, act) = read_start("dolt://beads_x");
    assert!(matches!(st, ReadState::DoltServer(ref db) if db == "beads_x"));
    assert!(matches!(act, ReadAction::CheckDoltServer));
    let (_, act) = read_step(st, ReadEvent::Answer(Err("down".to_string())));
    assert!(matches!(act, ReadAction::Fail { status: 503, ref error } if error == "Dolt server is not running"));
}

#[test]
fn read_falls_back_through_sources() {
    let (st, act) = read_start("C:\\proj");
    assert!(matches!(act, ReadAction::CheckPath));
    let (st, act) = read_step(st, ReadEvent::Answer(Ok(())));
    assert!(matches!(act, ReadAction::CheckBeadsDir));
    let (st, act) = read_step(st, ReadEvent::Answer(Ok(())));
    assert!(matches!(act, ReadAction::TryProjectDolt));
    let (st, act) = read_step(st, ReadEvent::Read(Err("x".to_string())));
    assert!(matches!(act, ReadAction::TryCentralDolt));
    let (st, act) = read_step(st, ReadEvent::Read(Err("x".to_string())));
    assert!(matches!(act, ReadAction::TryCli));
    let (st, act) = read_step(st, ReadEvent::Read(Err("x".to_string())));
    assert!(matches!(act, ReadAction::CheckJsonl));
    let (_, act) = read_step(st, ReadEvent::Answer(Err("missing".to_string())));
    assert!(matches!(act, ReadAction::Fail { status: 404, ref error }
        if error == "No data source available: Dolt SQL, bd CLI, and JSONL all failed"));
}

#[test]
fn read_cli_success_is_done() {
    let st = ReadState::Cli;
    let (_, act) = read_step(st, ReadEvent::Read(Ok(vec![])));
    assert!(matches!(act, ReadAction::Done { source: "cli", ref beads } if beads.is_empty()));
    let (_, act) = read_step(ReadState::Security, ReadEvent::Answer(Err("Path not allowed".to_string())));
    assert!(matches!(act, ReadAction::Fail { status: 403, ref error } if error == "Path not allowed"));
}

#[test]
fn new_dolt_ids_use_the_clock() {
    let id = beads_server::requests::new_dolt_bead_id("beads_x").unwrap();
    assert!(id.starts_with("x-"));
    let stamp = &id[2..];
    assert_eq!(stamp.len(), 7);
    assert!(stamp.chars().all(|c| c.is_ascii_digit()));
}
