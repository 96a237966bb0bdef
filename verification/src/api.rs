//! The answers of the project and tag endpoints: error statuses and
//! messages, and the project listing with its cached bead counts.

use vstd::prelude::*;
use crate::db::{
    CachedCounts, Database, DbError, DbState, ProjectWithTags, counts_of, is_project_listing,
    is_tag_listing, project_part,
};
use crate::text::{concat_str, replace_char, replace_char_spec};

verus! {

/// Error response structure
#[derive(Debug)]
pub struct ErrorResponse {
    pub error: String,
}

/// Success response structure for operations that don't return data
#[derive(Debug)]
pub struct SuccessResponse {
    pub success: bool,
}

/// Query parameters for listing projects
#[derive(Debug)]
pub struct ListProjectsParams {
    pub include_archived: Option<bool>,
}

/// A project list entry: the project with its tags, and its cached bead
/// counts (`None` until its beads have been read once).
#[derive(Debug)]
pub struct ProjectWithTagsAndCounts {
    pub project: ProjectWithTags,
    pub cached_counts: Option<CachedCounts>,
}

/// The HTTP status for a store error: 404 for a missing project or tag,
/// 500 otherwise.
pub open spec fn status_spec(e: DbError) -> u16 {
    match e {
        DbError::ProjectNotFound(_) | DbError::TagNotFound(_) => 404,
        DbError::Sqlite(_) | DbError::PathError => 500,
    }
}

/// The text of a store error.
pub open spec fn message_spec(e: DbError) -> Seq<char> {
    match e {
        DbError::Sqlite(m) => "SQLite error: "@ + m@,
        DbError::ProjectNotFound(id) => "Project not found: "@ + id@,
        DbError::TagNotFound(id) => "Tag not found: "@ + id@,
        DbError::PathError => "Database path error"@,
    }
}

impl DbError {
    /// The HTTP status for this error.
    pub fn status_code(&self) -> (r: u16)
        ensures
            r == status_spec(*self),
    {
        match self {
            DbError::ProjectNotFound(_) | DbError::TagNotFound(_) => 404,
            DbError::Sqlite(_) | DbError::PathError => 500,
        }
    }

    /// The text of this error.
    pub fn message(&self) -> (r: String)
        ensures
            r@ == message_spec(*self),
    {
        match self {
            DbError::Sqlite(m) => concat_str("SQLite error: ", m.as_str()),
            DbError::ProjectNotFound(id) => concat_str("Project not found: ", id.as_str()),
            DbError::TagNotFound(id) => concat_str("Tag not found: ", id.as_str()),
            DbError::PathError => String::from_str("Database path error"),
        }
    }
}

/// The answer for a store error: its status and its text.
pub fn db_error_response(err: DbError) -> (r: (u16, ErrorResponse))
    ensures
        r.0 == status_spec(err),
        r.1.error@ == message_spec(err),
{
    let status = err.status_code();
    (status, ErrorResponse { error: err.message() })
}

/// `e` is the listing entry for `p` in store `s`: its paths with
/// backslashes turned into slashes, and the project's cached counts.
pub open spec fn listing_entry(s: DbState, p: ProjectWithTags, e: ProjectWithTagsAndCounts) -> bool {
    &&& e.project == ProjectWithTags { path: e.project.path, local_path: e.project.local_path, ..p }
    &&& e.project.path@ == replace_char_spec(p.path@, '\\', '/')
    &&& match (p.local_path, e.project.local_path) {
        (Some(a), Some(b)) => b@ == replace_char_spec(a@, '\\', '/'),
        (None, None) => true,
        _ => false,
    }
    &&& e.cached_counts == counts_of(s, p.id@)
}

/// `r` lists the projects of `s` (archived ones too when
/// `include_archived`), most recently opened first, each with its tags and
/// cached counts.
pub open spec fn projects_listed(s: DbState, include_archived: bool, r: Seq<ProjectWithTagsAndCounts>) -> bool {
    exists|l: Seq<ProjectWithTags>|
        {
            &&& is_project_listing(s, include_archived, l.map_values(|p: ProjectWithTags| project_part(p)))
            &&& forall|k: int| 0 <= k < l.len() ==> is_tag_listing(s, (#[trigger] l[k]).id@, l[k].tags@)
            &&& r.len() == l.len()
            &&& forall|k: int| 0 <= k < l.len() ==> listing_entry(s, #[trigger] l[k], r[k])
        }
}

/// Lists the projects with their tags and cached bead counts, archived
/// ones only when asked for.
pub fn list_projects(db: &Database, params: &ListProjectsParams) -> (r: Result<
    Vec<ProjectWithTagsAndCounts>,
    (u16, ErrorResponse),
>)
    requires
        db.wf(),
    ensures
        r matches Ok(v) && projects_listed(
            db@,
            match params.include_archived {
                Some(b) => b,
                None => false,
            },
            v@,
        ),
{
    let include_archived = match params.include_archived {
        Some(b) => b,
        None => false,
    };
    let projects = match db.get_projects_with_tags_filtered(include_archived) {
        Ok(v) => v,
        Err(e) => {
            return Err(db_error_response(e));
        },
    };
    let ghost l = projects@;
    let n = projects.len();
    let mut result: Vec<ProjectWithTagsAndCounts> = Vec::new();
    let mut i: usize = 0;
    for p in it: projects.into_iter()
        invariant
            it.seq() == l,
            i == it.index(),
            n == l.len(),
            db.wf(),
            result@.len() == i,
            forall|k: int| 0 <= k < i ==> listing_entry(db@, l[k], #[trigger] result@[k]),
    {
        assert(p == l[i as int]);
        let ghost p0 = p;
        let mut p = p;
        p.path = replace_char(p.path.as_str(), '\\', '/');
        p.local_path = match &p.local_path {
            Some(lp) => Some(replace_char(lp.as_str(), '\\', '/')),
            None => None,
        };
        let cached_counts = match db.get_cached_counts(p.id.as_str()) {
            Ok(c) => c,
            Err(_) => None,
        };
        let entry = ProjectWithTagsAndCounts { project: p, cached_counts };
        assert(listing_entry(db@, p0, entry));
        result.push(entry);
        i += 1;
    }
    proof {
        assert(result@.len() == l.len());
        assert forall|k: int| 0 <= k < l.len() implies listing_entry(db@, #[trigger] l[k], result@[k]) by {
            assert(listing_entry(db@, l[k], result@[k]));
        }
    }
    Ok(result)
}

} // verus!
