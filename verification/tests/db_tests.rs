use beads_server::api::{db_error_response, list_projects, ListProjectsParams};
use beads_server::beads::Bead;
use beads_server::db::{
    pending_migrations, CachedCounts, CreateProjectInput, CreateTagInput, Database, DbError, UpdateProjectInput,
};
use beads_server::sources::upsert_counts_cache_at;

fn input(name: &str, path: &str) -> CreateProjectInput {
    CreateProjectInput { name: name.to_string(), path: path.to_string(), local_path: None }
}

fn bead(id: &str, status: &str) -> Bead {
    Bead {
        id: id.to_string(),
        title: "T".to_string(),
        description: None,
        status: status.to_string(),
        priority: None,
        issue_type: None,
        owner: None,
        created_at: None,
        created_by: None,
        updated_at: None,
        closed_at: None,
        close_reason: None,
        comments: None,
        parent_id: None,
        children: None,
        design_doc: None,
        deps: None,
        relates_to: None,
        dependencies: None,
    }
}

#[test]
fn test_create_and_get_project() {
    let mut db = Database::new_in_memory().unwrap();
    let project = db.create_project(input("Test Project", "/path/to/project")).unwrap();
    assert_eq!(project.name, "Test Project");
    assert_eq!(project.path, "/path/to/project");
    let projects = db.get_projects_filtered(false).unwrap();
    assert_eq!(projects.len(), 1);
    assert_eq!(projects[0].id, project.id);
}

#[test]
fn test_update_project() {
    let mut db = Database::new_in_memory().unwrap();
    let project = db.create_project(input("Original", "/path")).unwrap();
    let updated = db
        .update_project(
            &project.id,
            UpdateProjectInput { name: Some("Updated".to_string()), path: None, local_path: None },
        )
        .unwrap();
    assert_eq!(updated.name, "Updated");
    assert_eq!(updated.path, "/path");
}

#[test]
fn test_delete_project() {
    let mut db = Database::new_in_memory().unwrap();
    let project = db.create_project(input("To Delete", "/delete/me")).unwrap();
    db.delete_project(&project.id).unwrap();
    let projects = db.get_projects_filtered(false).unwrap();
    assert!(projects.is_empty());
}

#[test]
fn test_create_and_get_tag() {
    let mut db = Database::new_in_memory().unwrap();
    let tag = db
        .create_tag(CreateTagInput { name: "Frontend".to_string(), color: "#3b82f6".to_string() })
        .unwrap();
    assert_eq!(tag.name, "Frontend");
    assert_eq!(tag.color, "#3b82f6");
    let tags = db.get_tags().unwrap();
    assert_eq!(tags.len(), 1);
}

#[test]
fn test_project_tag_relationship() {
    let mut db = Database::new_in_memory().unwrap();
    let project = db.create_project(input("Project", "/project")).unwrap();
    let tag = db
        .create_tag(CreateTagInput { name: "Urgent".to_string(), color: "#ef4444".to_string() })
        .unwrap();
    db.add_tag_to_project(&project.id, &tag.id).unwrap();
    let project_tags = db.get_project_tags(&project.id).unwrap();
    assert_eq!(project_tags.len(), 1);
    assert_eq!(project_tags[0].id, tag.id);
    db.remove_tag_from_project(&project.id, &tag.id).unwrap();
    let project_tags = db.get_project_tags(&project.id).unwrap();
    assert!(project_tags.is_empty());
}

#[test]
fn test_archive_unarchive_project() {
    let mut db = Database::new_in_memory().unwrap();
    let project = db.create_project(input("Archivable", "/archive/me")).unwrap();
    let projects = db.get_projects_filtered(false).unwrap();
    assert_eq!(projects.len(), 1);
    db.archive_project(&project.id).unwrap();
    let active = db.get_projects_filtered(false).unwrap();
    assert!(active.is_empty());
    let all = db.get_projects_filtered(true).unwrap();
    assert_eq!(all.len(), 1);
    assert!(all[0].archived_at.is_some());
    db.unarchive_project(&project.id).unwrap();
    let active = db.get_projects_filtered(false).unwrap();
    assert_eq!(active.len(), 1);
    assert!(active[0].archived_at.is_none());
}

#[test]
fn test_touch_project_updates_last_opened() {
    let mut db = Database::new_in_memory().unwrap();
    let project = db.create_project(input("Touchable", "/touch/me")).unwrap();
    let original = project.last_opened.clone();
    // Wait so the RFC3339 timestamp is guaranteed to differ on fast machines
    let start = std::time::Instant::now();
    while start.elapsed() < std::time::Duration::from_millis(20) {}
    db.touch_project(&project.id).unwrap();
    let projects = db.get_projects_filtered(false).unwrap();
    let touched = projects
        .iter()
        .find(|p| p.id == project.id)
        .expect("project should still exist after touch");
    assert_ne!(touched.last_opened, original);
    assert!(
        touched.last_opened.as_str() > original.as_str(),
        "expected new last_opened ({}) > original ({})",
        touched.last_opened,
        original
    );
    assert_eq!(touched.name, project.name);
    assert_eq!(touched.path, project.path);
}

#[test]
fn test_touch_project_not_found() {
    let mut db = Database::new_in_memory().unwrap();
    let result = db.touch_project("does-not-exist-uuid");
    assert!(matches!(result, Err(DbError::ProjectNotFound(_))));
}

#[test]
fn test_get_projects_with_tags() {
    let mut db = Database::new_in_memory().unwrap();
    let project = db.create_project(input("Test", "/test")).unwrap();
    let tag = db.create_tag(CreateTagInput { name: "Tag1".to_string(), color: "#000".to_string() }).unwrap();
    db.add_tag_to_project(&project.id, &tag.id).unwrap();
    let projects = db.get_projects_with_tags_filtered(false).unwrap();
    assert_eq!(projects.len(), 1);
    assert_eq!(projects[0].tags.len(), 1);
    assert_eq!(projects[0].tags[0].name, "Tag1");
}

#[test]
fn test_get_project_by_path_found() {
    let mut db = Database::new_in_memory().unwrap();
    let created = db.create_project(input("Lookup", "/lookup/by/path")).unwrap();
    let found = db.get_project_by_path("/lookup/by/path").unwrap();
    assert!(found.is_some());
    assert_eq!(found.unwrap().id, created.id);
}

#[test]
fn test_get_project_by_path_not_found() {
    let db = Database::new_in_memory().unwrap();
    let found = db.get_project_by_path("/does/not/exist").unwrap();
    assert!(found.is_none());
}

#[test]
fn test_get_project_by_path_matches_windows_backslash_variant() {
    let mut db = Database::new_in_memory().unwrap();
    let created = db.create_project(input("Win", "M:\\repos\\win\\project")).unwrap();
    let found = db.get_project_by_path("M:/repos/win/project").unwrap();
    assert!(found.is_some(), "forward-slash lookup should match backslash-stored path");
    assert_eq!(found.unwrap().id, created.id);
}

#[test]
fn test_cached_counts_insert_and_get() {
    let mut db = Database::new_in_memory().unwrap();
    let project = db.create_project(input("Counts", "/counts")).unwrap();
    let initial = db.get_cached_counts(&project.id).unwrap();
    assert!(initial.is_none(), "expected no cache row before first upsert");
    let counts = CachedCounts {
        open: 3,
        in_progress: 1,
        inreview: 0,
        closed: 7,
        data_source: Some("cli".to_string()),
        updated_at: "2026-04-22T10:00:00Z".to_string(),
    };
    db.upsert_cached_counts(&project.id, &counts).unwrap();
    let fetched = db.get_cached_counts(&project.id).unwrap().unwrap();
    assert_eq!(fetched.open, 3);
    assert_eq!(fetched.in_progress, 1);
    assert_eq!(fetched.inreview, 0);
    assert_eq!(fetched.closed, 7);
    assert_eq!(fetched.data_source.as_deref(), Some("cli"));
    assert_eq!(fetched.updated_at, "2026-04-22T10:00:00Z");
}

#[test]
fn test_cached_counts_upsert_replaces_existing() {
    let mut db = Database::new_in_memory().unwrap();
    let project = db.create_project(input("Upsert", "/upsert")).unwrap();
    let first = CachedCounts {
        open: 10,
        in_progress: 2,
        inreview: 1,
        closed: 0,
        data_source: Some("jsonl".to_string()),
        updated_at: "2026-04-22T10:00:00Z".to_string(),
    };
    db.upsert_cached_counts(&project.id, &first).unwrap();
    let second = CachedCounts {
        open: 8,
        in_progress: 3,
        inreview: 2,
        closed: 5,
        data_source: Some("dolt-direct".to_string()),
        updated_at: "2026-04-22T11:00:00Z".to_string(),
    };
    db.upsert_cached_counts(&project.id, &second).unwrap();
    let fetched = db.get_cached_counts(&project.id).unwrap().unwrap();
    assert_eq!(fetched.open, 8);
    assert_eq!(fetched.in_progress, 3);
    assert_eq!(fetched.inreview, 2);
    assert_eq!(fetched.closed, 5);
    assert_eq!(fetched.data_source.as_deref(), Some("dolt-direct"));
    assert_eq!(fetched.updated_at, "2026-04-22T11:00:00Z");
    // Still only one row for this project
    let (_, _, _, counts) = db.rows();
    let count = counts.iter().filter(|(pid, _)| *pid == project.id).count();
    assert_eq!(count, 1);
}

#[test]
fn test_cached_counts_cascade_on_project_delete() {
    let mut db = Database::new_in_memory().unwrap();
    let project = db.create_project(input("Cascade", "/cascade")).unwrap();
    db.upsert_cached_counts(
        &project.id,
        &CachedCounts {
            open: 1,
            in_progress: 0,
            inreview: 0,
            closed: 0,
            data_source: None,
            updated_at: "2026-04-22T10:00:00Z".to_string(),
        },
    )
    .unwrap();
    assert!(db.get_cached_counts(&project.id).unwrap().is_some());
    db.delete_project(&project.id).unwrap();
    assert!(db.get_cached_counts(&project.id).unwrap().is_none());
}

// ── further behaviour of the store ───────────────────────────────────

#[test]
fn duplicate_path_is_refused() {
    let mut db = Database::new_in_memory().unwrap();
    db.create_project(input("A", "/same")).unwrap();
    let err = db.create_project(input("B", "/same")).unwrap_err();
    assert!(matches!(err, DbError::Sqlite(ref m) if m == "UNIQUE constraint failed: projects.path"));
    assert_eq!(db.get_projects_filtered(true).unwrap().len(), 1);
}

#[test]
fn update_to_taken_path_keeps_new_name() {
    let mut db = Database::new_in_memory().unwrap();
    let a = db.create_project(input("A", "/a")).unwrap();
    db.create_project(input("B", "/b")).unwrap();
    let err = db
        .update_project(&a.id, UpdateProjectInput { name: Some("A2".to_string()), path: Some("/b".to_string()), local_path: None })
        .unwrap_err();
    assert!(matches!(err, DbError::Sqlite(_)));
    let all = db.get_projects_filtered(true).unwrap();
    let stored = all.iter().find(|p| p.id == a.id).unwrap();
    assert_eq!(stored.name, "A2");
    assert_eq!(stored.path, "/a");
}

#[test]
fn update_missing_project_is_not_found() {
    let mut db = Database::new_in_memory().unwrap();
    let err = db
        .update_project("nope", UpdateProjectInput { name: None, path: None, local_path: None })
        .unwrap_err();
    assert!(matches!(err, DbError::ProjectNotFound(ref id) if id == "nope"));
}

#[test]
fn delete_missing_is_not_found() {
    let mut db = Database::new_in_memory().unwrap();
    assert!(matches!(db.delete_project("nope"), Err(DbError::ProjectNotFound(_))));
    assert!(matches!(db.delete_tag("nope"), Err(DbError::TagNotFound(_))));
    assert!(matches!(db.archive_project("nope"), Err(DbError::ProjectNotFound(_))));
    assert!(matches!(db.unarchive_project("nope"), Err(DbError::ProjectNotFound(_))));
}

#[test]
fn add_tag_errors_and_idempotence() {
    let mut db = Database::new_in_memory().unwrap();
    let p = db.create_project(input("P", "/p")).unwrap();
    let t = db.create_tag(CreateTagInput { name: "T".to_string(), color: "#fff".to_string() }).unwrap();
    assert!(matches!(db.add_tag_to_project("nope", &t.id), Err(DbError::ProjectNotFound(_))));
    assert!(matches!(db.add_tag_to_project(&p.id, "nope"), Err(DbError::TagNotFound(_))));
    db.add_tag_to_project(&p.id, &t.id).unwrap();
    db.add_tag_to_project(&p.id, &t.id).unwrap();
    assert_eq!(db.get_project_tags(&p.id).unwrap().len(), 1);
    db.delete_tag(&t.id).unwrap();
    assert!(db.get_project_tags(&p.id).unwrap().is_empty());
}

#[test]
fn counts_for_missing_project_fail() {
    let mut db = Database::new_in_memory().unwrap();
    let c = CachedCounts {
        open: 0,
        in_progress: 0,
        inreview: 0,
        closed: 0,
        data_source: None,
        updated_at: "t".to_string(),
    };
    assert!(db.upsert_cached_counts("nope", &c).is_err());
}

#[test]
fn listings_are_ordered() {
    let mut db = Database::new_in_memory().unwrap();
    let a = db.create_project_with(input("A", "/a"), "id-a".to_string(), "2026-01-01".to_string()).unwrap();
    let b = db.create_project_with(input("B", "/b"), "id-b".to_string(), "2026-03-01".to_string()).unwrap();
    let projects = db.get_projects_filtered(true).unwrap();
    assert_eq!(projects[0].id, b.id);
    assert_eq!(projects[1].id, a.id);
    db.create_tag_with(CreateTagInput { name: "zeta".to_string(), color: "#1".to_string() }, "t1".to_string()).unwrap();
    db.create_tag_with(CreateTagInput { name: "alpha".to_string(), color: "#2".to_string() }, "t2".to_string()).unwrap();
    let tags = db.get_tags().unwrap();
    assert_eq!(tags[0].name, "alpha");
    assert_eq!(tags[1].name, "zeta");
    let dup = db.create_tag_with(CreateTagInput { name: "x".to_string(), color: "#3".to_string() }, "t1".to_string());
    assert!(matches!(dup, Err(DbError::Sqlite(ref m)) if m == "UNIQUE constraint failed: tags.id"));
}

#[test]
fn rows_round_trip() {
    let mut db = Database::new_in_memory().unwrap();
    let p = db.create_project(input("P", "/p")).unwrap();
    let t = db.create_tag(CreateTagInput { name: "T".to_string(), color: "#fff".to_string() }).unwrap();
    db.add_tag_to_project(&p.id, &t.id).unwrap();
    let (ps, ts, ls, cs) = db.rows();
    let restored = Database::from_rows(ps, ts, ls, cs).unwrap();
    assert_eq!(restored.get_project_tags(&p.id).unwrap().len(), 1);
    let (ps, ts, _, _) = db.rows();
    let bad = Database::from_rows(ps, ts, vec![("nope".to_string(), t.id.clone())], vec![]);
    assert!(bad.is_err());
}

#[test]
fn migrations_after_version() {
    assert_eq!(pending_migrations(0).len(), 3);
    let rest = pending_migrations(1);
    assert_eq!(rest.len(), 2);
    assert_eq!(rest[0].0, 2);
    assert!(pending_migrations(3).is_empty());
}

#[test]
fn counts_cache_follows_path() {
    let mut db = Database::new_in_memory().unwrap();
    let p = db.create_project(input("Win", "C:\\work\\proj")).unwrap();
    let beads = vec![bead("1", "open"), bead("2", "closed"), bead("3", "open")];
    upsert_counts_cache_at(&mut db, "C:/work/proj", "cli", &beads, "2026-05-01T00:00:00Z".to_string());
    let c = db.get_cached_counts(&p.id).unwrap().unwrap();
    assert_eq!((c.open, c.in_progress, c.inreview, c.closed), (2, 0, 0, 1));
    assert_eq!(c.data_source.as_deref(), Some("cli"));
    assert_eq!(c.updated_at, "2026-05-01T00:00:00Z");
    let before = db.rows().3.len();
    upsert_counts_cache_at(&mut db, "/unknown", "cli", &beads, "x".to_string());
    assert_eq!(db.rows().3.len(), before);
}

#[test]
fn list_projects_normalizes_and_attaches_counts() {
    let mut db = Database::new_in_memory().unwrap();
    let p = db
        .create_project(CreateProjectInput {
            name: "W".to_string(),
            path: "C:\\w".to_string(),
            local_path: Some("D:\\l".to_string()),
        })
        .unwrap();
    let listed = list_projects(&db, &ListProjectsParams { include_archived: None }).ok().unwrap();
    assert_eq!(listed.len(), 1);
    assert_eq!(listed[0].project.path, "C:/w");
    assert_eq!(listed[0].project.local_path.as_deref(), Some("D:/l"));
    assert!(listed[0].cached_counts.is_none());
    db.archive_project(&p.id).unwrap();
    let listed = list_projects(&db, &ListProjectsParams { include_archived: None }).ok().unwrap();
    assert!(listed.is_empty());
    let listed = list_projects(&db, &ListProjectsParams { include_archived: Some(true) }).ok().unwrap();
    assert_eq!(listed.len(), 1);
}

#[test]
fn error_statuses_and_messages() {
    let (s, body) = db_error_response(DbError::ProjectNotFound("p1".to_string()));
    assert_eq!(s, 404);
    assert_eq!(body.error, "Project not found: p1");
    let (s, body) = db_error_response(DbError::TagNotFound("t1".to_string()));
    assert_eq!(s, 404);
    assert_eq!(body.error, "Tag not found: t1");
    let (s, body) = db_error_response(DbError::Sqlite("boom".to_string()));
    assert_eq!(s, 500);
    assert_eq!(body.error, "SQLite error: boom");
    let (s, body) = db_error_response(DbError::PathError);
    assert_eq!(s, 500);
    assert_eq!(body.error, "Database path error");
}

#[test]
fn created_ids_are_fresh_uuids() {
    let mut db = Database::new_in_memory().unwrap();
    let a = db.create_project(input("A", "/a")).unwrap();
    let b = db.create_project(input("B", "/b")).unwrap();
    assert_ne!(a.id, b.id);
    assert_eq!(a.id.len(), 36);
    assert_eq!(a.last_opened, a.created_at);
    assert!(a.last_opened.starts_with("20"));
    let t = db.create_tag(CreateTagInput { name: "T".to_string(), color: "#fff".to_string() }).unwrap();
    assert_eq!(t.id.len(), 36);
}

#[test]
fn archive_then_unarchive_restores_rows() {
    let mut db = Database::new_in_memory().unwrap();
    let p = db.create_project(input("A", "/a")).unwrap();
    let before = format!("{:?}", db.rows());
    db.archive_project(&p.id).unwrap();
    assert_ne!(format!("{:?}", db.rows()), before);
    db.unarchive_project(&p.id).unwrap();
    assert_eq!(format!("{:?}", db.rows()), before);
}

#[test]
fn stamps_are_rfc3339_utc() {
    let mut db = Database::new_in_memory().unwrap();
    let p = db.create_project(input("A", "/a")).unwrap();
    assert!(p.last_opened.ends_with("+00:00"));
    assert_eq!(&p.last_opened[4..5], "-");
    assert_eq!(&p.last_opened[10..11], "T");
    assert!(pending_migrations(2)[0].1.contains("\n                    open INTEGER NOT NULL DEFAULT 0,"));
}
