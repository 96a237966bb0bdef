//! The project/tag store: projects, tags, project-tag links and cached
//! per-project bead counts, with the constraints of the server's schema
//! (unique ids, unique project paths, links and counts that cascade with
//! their project).

use vstd::prelude::*;
use crate::external::{is_rfc3339_utc, is_hyphenated_uuid, new_uuid, now_rfc3339};
use crate::text::{replace_char, replace_char_spec, seq_lt, str_eq, str_lt, lemma_lt_total, lemma_lt_transitive};

verus! {

// ===== Records =====

/// Store errors.
#[derive(Debug)]
pub enum DbError {
    /// A constraint of the storage failed; the message says which.
    Sqlite(String),
    ProjectNotFound(String),
    TagNotFound(String),
    PathError,
}

/// A project stored in the local database.
#[derive(Debug)]
pub struct Project {
    pub id: String,
    pub name: String,
    pub path: String,
    pub local_path: Option<String>,
    pub last_opened: String,
    pub created_at: String,
    pub archived_at: Option<String>,
}

/// A project with its associated tags.
#[derive(Debug)]
pub struct ProjectWithTags {
    pub id: String,
    pub name: String,
    pub path: String,
    pub local_path: Option<String>,
    pub tags: Vec<Tag>,
    pub last_opened: String,
    pub created_at: String,
    pub archived_at: Option<String>,
}

/// A tag stored in the local database.
#[derive(Debug)]
pub struct Tag {
    pub id: String,
    pub name: String,
    pub color: String,
}

/// Cached per-project bead counts by status.
#[derive(Debug)]
pub struct CachedCounts {
    pub open: i64,
    pub in_progress: i64,
    pub inreview: i64,
    pub closed: i64,
    pub data_source: Option<String>,
    pub updated_at: String,
}

/// Input for creating a new project.
#[derive(Debug)]
pub struct CreateProjectInput {
    pub name: String,
    pub path: String,
    pub local_path: Option<String>,
}

/// Input for updating a project.
#[derive(Debug)]
pub struct UpdateProjectInput {
    pub name: Option<String>,
    pub path: Option<String>,
    pub local_path: Option<String>,
}

/// Input for creating a new tag.
#[derive(Debug)]
pub struct CreateTagInput {
    pub name: String,
    pub color: String,
}

/// Input for adding a tag to a project.
#[derive(Debug)]
pub struct ProjectTagInput {
    pub project_id: String,
    pub tag_id: String,
}

fn clone_opt(o: &Option<String>) -> (r: Option<String>)
    ensures
        r == *o,
{
    match o {
        Some(s) => Some(s.clone()),
        None => None,
    }
}

impl Project {
    /// A copy of this project.
    pub fn duplicate(&self) -> (r: Project)
        ensures
            r == *self,
    {
        Project {
            id: self.id.clone(),
            name: self.name.clone(),
            path: self.path.clone(),
            local_path: clone_opt(&self.local_path),
            last_opened: self.last_opened.clone(),
            created_at: self.created_at.clone(),
            archived_at: clone_opt(&self.archived_at),
        }
    }
}

impl Tag {
    /// A copy of this tag.
    pub fn duplicate(&self) -> (r: Tag)
        ensures
            r == *self,
    {
        Tag { id: self.id.clone(), name: self.name.clone(), color: self.color.clone() }
    }
}

impl CachedCounts {
    /// A copy of these counts.
    pub fn duplicate(&self) -> (r: CachedCounts)
        ensures
            r == *self,
    {
        CachedCounts {
            open: self.open,
            in_progress: self.in_progress,
            inreview: self.inreview,
            closed: self.closed,
            data_source: clone_opt(&self.data_source),
            updated_at: self.updated_at.clone(),
        }
    }
}

impl ProjectWithTags {
    /// The project with the given tags attached.
    pub fn from_project(project: Project, tags: Vec<Tag>) -> (r: ProjectWithTags)
        ensures
            r == project_with_tags(project, tags),
    {
        ProjectWithTags {
            id: project.id,
            name: project.name,
            path: project.path,
            local_path: project.local_path,
            tags,
            last_opened: project.last_opened,
            created_at: project.created_at,
            archived_at: project.archived_at,
        }
    }
}

/// `project` with `tags` attached.
pub open spec fn project_with_tags(project: Project, tags: Vec<Tag>) -> ProjectWithTags {
    ProjectWithTags {
        id: project.id,
        name: project.name,
        path: project.path,
        local_path: project.local_path,
        tags,
        last_opened: project.last_opened,
        created_at: project.created_at,
        archived_at: project.archived_at,
    }
}

// ===== The store's state =====

/// The contents of the store, table by table, in storage order.
pub struct DbState {
    pub projects: Seq<Project>,
    pub tags: Seq<Tag>,
    pub links: Seq<(String, String)>,
    pub counts: Seq<(String, CachedCounts)>,
}

/// Some project has id `id`.
pub open spec fn has_project(s: DbState, id: Seq<char>) -> bool {
    exists|k: int| 0 <= k < s.projects.len() && (#[trigger] s.projects[k]).id@ == id
}

/// Some tag has id `id`.
pub open spec fn has_tag(s: DbState, id: Seq<char>) -> bool {
    exists|k: int| 0 <= k < s.tags.len() && (#[trigger] s.tags[k]).id@ == id
}

/// Project `pid` carries tag `tid`.
pub open spec fn has_link(s: DbState, pid: Seq<char>, tid: Seq<char>) -> bool {
    exists|k: int| 0 <= k < s.links.len() && (#[trigger] s.links[k]).0@ == pid && s.links[k].1@ == tid
}

/// Some project other than the one at `except` has path `path`.
pub open spec fn path_taken(s: DbState, path: Seq<char>, except: int) -> bool {
    exists|k: int| 0 <= k < s.projects.len() && k != except && (#[trigger] s.projects[k]).path@ == path
}

/// The constraints of the schema hold.
pub open spec fn wf_state(s: DbState) -> bool {
    &&& forall|i: int, j: int|
        0 <= i < j < s.projects.len() ==> (#[trigger] s.projects[i]).id@ != (#[trigger] s.projects[j]).id@
            && s.projects[i].path@ != s.projects[j].path@
    &&& forall|i: int, j: int|
        0 <= i < j < s.tags.len() ==> (#[trigger] s.tags[i]).id@ != (#[trigger] s.tags[j]).id@
    &&& forall|i: int|
        0 <= i < s.links.len() ==> has_project(s, (#[trigger] s.links[i]).0@) && has_tag(s, s.links[i].1@)
    &&& forall|i: int, j: int|
        0 <= i < j < s.links.len() ==> !((#[trigger] s.links[i]).0@ == (#[trigger] s.links[j]).0@
            && s.links[i].1@ == s.links[j].1@)
    &&& forall|i: int| 0 <= i < s.counts.len() ==> has_project(s, (#[trigger] s.counts[i]).0@)
    &&& forall|i: int, j: int|
        0 <= i < j < s.counts.len() ==> (#[trigger] s.counts[i]).0@ != (#[trigger] s.counts[j]).0@
}

/// `e` is a storage error with message `msg`.
pub open spec fn is_sqlite_error(e: DbError, msg: Seq<char>) -> bool {
    match e {
        DbError::Sqlite(m) => m@ == msg,
        _ => false,
    }
}

/// `e` says that project `id` was not found.
pub open spec fn is_project_not_found(e: DbError, id: Seq<char>) -> bool {
    match e {
        DbError::ProjectNotFound(m) => m@ == id,
        _ => false,
    }
}

/// `e` says that tag `id` was not found.
pub open spec fn is_tag_not_found(e: DbError, id: Seq<char>) -> bool {
    match e {
        DbError::TagNotFound(m) => m@ == id,
        _ => false,
    }
}

/// The store.
#[derive(Debug)]
pub struct Database {
    projects: Vec<Project>,
    tags: Vec<Tag>,
    project_tags: Vec<(String, String)>,
    bead_counts: Vec<(String, CachedCounts)>,
}

impl View for Database {
    type V = DbState;

    closed spec fn view(&self) -> DbState {
        DbState {
            projects: self.projects@,
            tags: self.tags@,
            links: self.project_tags@,
            counts: self.bead_counts@,
        }
    }
}

impl Database {
    /// The store satisfies the schema's constraints.
    pub open spec fn wf(&self) -> bool {
        wf_state(self@)
    }

    /// An empty store.
    pub fn new_in_memory() -> (r: Result<Database, DbError>)
        ensures
            r matches Ok(db) && db.wf() && db@.projects.len() == 0 && db@.tags.len() == 0
                && db@.links.len() == 0 && db@.counts.len() == 0,
    {
        let db = Database {
            projects: Vec::new(),
            tags: Vec::new(),
            project_tags: Vec::new(),
            bead_counts: Vec::new(),
        };
        Ok(db)
    }
}

// ===== Positions and state lemmas =====

/// The position of project `id` (meaningful when it exists).
pub open spec fn project_pos(s: DbState, id: Seq<char>) -> int {
    choose|k: int| 0 <= k < s.projects.len() && (#[trigger] s.projects[k]).id@ == id
}

/// The position of tag `id` (meaningful when it exists).
pub open spec fn tag_pos(s: DbState, id: Seq<char>) -> int {
    choose|k: int| 0 <= k < s.tags.len() && (#[trigger] s.tags[k]).id@ == id
}

proof fn lemma_project_pos(s: DbState, k: int)
    requires
        wf_state(s),
        0 <= k < s.projects.len(),
    ensures
        has_project(s, s.projects[k].id@),
        project_pos(s, s.projects[k].id@) == k,
{
    let id = s.projects[k].id@;
    assert(has_project(s, id));
    let c = project_pos(s, id);
    if c != k {
        if c < k {
            assert(s.projects[c].id@ != s.projects[k].id@);
        } else {
            assert(s.projects[k].id@ != s.projects[c].id@);
        }
    }
}

proof fn lemma_tag_pos(s: DbState, k: int)
    requires
        wf_state(s),
        0 <= k < s.tags.len(),
    ensures
        has_tag(s, s.tags[k].id@),
        tag_pos(s, s.tags[k].id@) == k,
{
    let id = s.tags[k].id@;
    assert(has_tag(s, id));
    let c = tag_pos(s, id);
    if c != k {
        if c < k {
            assert(s.tags[c].id@ != s.tags[k].id@);
        } else {
            assert(s.tags[k].id@ != s.tags[c].id@);
        }
    }
}

/// When only the projects table changes, keeping every project id and the
/// uniqueness of ids and paths, the constraints still hold.
proof fn lemma_wf_projects_changed(s: DbState, t: DbState)
    requires
        wf_state(s),
        t.tags == s.tags,
        t.links == s.links,
        t.counts == s.counts,
        forall|i: int, j: int|
            0 <= i < j < t.projects.len() ==> (#[trigger] t.projects[i]).id@ != (#[trigger] t.projects[j]).id@
                && t.projects[i].path@ != t.projects[j].path@,
        forall|id: Seq<char>| has_project(s, id) ==> has_project(t, id),
    ensures
        wf_state(t),
{
    assert forall|i: int| 0 <= i < t.links.len() implies has_project(t, (#[trigger] t.links[i]).0@)
        && has_tag(t, t.links[i].1@) by {
        assert(has_project(s, s.links[i].0@));
        assert(has_tag(s, s.links[i].1@));
        let k = choose|k: int| 0 <= k < s.tags.len() && (#[trigger] s.tags[k]).id@ == s.links[i].1@;
        assert(t.tags[k] == s.tags[k]);
    }
    assert forall|i: int| 0 <= i < t.counts.len() implies has_project(t, (#[trigger] t.counts[i]).0@) by {
        assert(has_project(s, s.counts[i].0@));
    }
}

/// Replacing a project by one with the same id and a path no other project
/// has keeps the constraints.
proof fn lemma_wf_replace_project(s: DbState, k: int, p: Project)
    requires
        wf_state(s),
        0 <= k < s.projects.len(),
        p.id@ == s.projects[k].id@,
        !path_taken(s, p.path@, k),
    ensures
        wf_state(DbState { projects: s.projects.update(k, p), ..s }),
{
    let t = DbState { projects: s.projects.update(k, p), ..s };
    assert forall|i: int, j: int|
        0 <= i < j < t.projects.len() implies (#[trigger] t.projects[i]).id@ != (#[trigger] t.projects[j]).id@
            && t.projects[i].path@ != t.projects[j].path@ by {
        if i == k {
            assert(t.projects[j] == s.projects[j]);
        } else if j == k {
            assert(t.projects[i] == s.projects[i]);
        } else {
            assert(t.projects[i] == s.projects[i] && t.projects[j] == s.projects[j]);
        }
    }
    assert forall|id: Seq<char>| has_project(s, id) implies has_project(t, id) by {
        let q = choose|q: int| 0 <= q < s.projects.len() && (#[trigger] s.projects[q]).id@ == id;
        if q == k {
            assert(t.projects[k].id@ == id);
        } else {
            assert(t.projects[q] == s.projects[q]);
        }
    }
    lemma_wf_projects_changed(s, t);
}

/// When only the links and counts change, staying consistent with the
/// projects and tags, the constraints still hold.
proof fn lemma_wf_refs_changed(s: DbState, t: DbState)
    requires
        wf_state(s),
        t.projects == s.projects,
        t.tags == s.tags,
        forall|i: int|
            0 <= i < t.links.len() ==> has_project(s, (#[trigger] t.links[i]).0@) && has_tag(s, t.links[i].1@),
        forall|i: int, j: int|
            0 <= i < j < t.links.len() ==> !((#[trigger] t.links[i]).0@ == (#[trigger] t.links[j]).0@
                && t.links[i].1@ == t.links[j].1@),
        forall|i: int| 0 <= i < t.counts.len() ==> has_project(s, (#[trigger] t.counts[i]).0@),
        forall|i: int, j: int|
            0 <= i < j < t.counts.len() ==> (#[trigger] t.counts[i]).0@ != (#[trigger] t.counts[j]).0@,
    ensures
        wf_state(t),
{
    assert forall|x: Seq<char>| has_project(s, x) implies has_project(t, x) by {
        let q = choose|q: int| 0 <= q < s.projects.len() && (#[trigger] s.projects[q]).id@ == x;
        assert(t.projects[q] == s.projects[q]);
    }
    assert forall|x: Seq<char>| has_tag(s, x) implies has_tag(t, x) by {
        let q = choose|q: int| 0 <= q < s.tags.len() && (#[trigger] s.tags[q]).id@ == x;
        assert(t.tags[q] == s.tags[q]);
    }
    assert forall|i: int| 0 <= i < t.links.len() implies has_project(t, (#[trigger] t.links[i]).0@)
        && has_tag(t, t.links[i].1@) by {
        assert(has_project(s, t.links[i].0@));
        assert(has_tag(s, t.links[i].1@));
    }
    assert forall|i: int| 0 <= i < t.counts.len() implies has_project(t, (#[trigger] t.counts[i]).0@) by {
        assert(has_project(s, t.counts[i].0@));
    }
}

// ===== Outcomes of the operations that take a time or an id =====

/// `r` and `t` are what creating a project from `input` with id `id` at `now` gives in `s`.
pub open spec fn create_project_outcome(s: DbState, t: DbState, input: CreateProjectInput, id: String, now: String, r: Result<Project, DbError>) -> bool {
    match r {
        Ok(p) => {
            &&& !has_project(s, id@)
            &&& !path_taken(s, input.path@, -1)
            &&& p == new_project(input, id, now)
            &&& t == DbState { projects: s.projects.push(p), ..s }
        },
        Err(e) => {
            &&& t == s
            &&& if has_project(s, id@) {
                is_sqlite_error(e, "UNIQUE constraint failed: projects.id"@)
            } else {
                path_taken(s, input.path@, -1) && is_sqlite_error(
                    e,
                    "UNIQUE constraint failed: projects.path"@,
                )
            }
        },
    }
}

/// `r` and `t` are what updating project `id` with `input` at `now` gives in `s`.
pub open spec fn update_project_outcome(s: DbState, t: DbState, id: Seq<char>, input: UpdateProjectInput, now: String, r: Result<Project, DbError>) -> bool {
    match r {
        Ok(p) => {
            let k = project_pos(s, id);
            &&& has_project(s, id)
            &&& !(input.path matches Some(x) && path_taken(s, x@, k))
            &&& p == updated_project(s.projects[k], input, now)
            &&& t == with_project(s, k, p)
        },
        Err(e) => if !has_project(s, id) {
            is_project_not_found(e, id) && t == s
        } else {
            let k = project_pos(s, id);
            &&& input.path matches Some(x) && path_taken(s, x@, k)
            &&& is_sqlite_error(e, "UNIQUE constraint failed: projects.path"@)
            &&& t == with_project(
                s,
                k,
                renamed(s.projects[k], input),
            )
        },
    }
}

/// `r` and `t` are what touching project `id` at `now` gives in `s`.
pub open spec fn touch_outcome(s: DbState, t: DbState, id: Seq<char>, now: String, r: Result<(), DbError>) -> bool {
    match r {
        Ok(()) => {
            let k = project_pos(s, id);
            &&& has_project(s, id)
            &&& t == with_project(
                s,
                k,
                Project { last_opened: now, ..s.projects[k] },
            )
        },
        Err(e) => !has_project(s, id) && is_project_not_found(e, id) && t
            == s,
    }
}

/// `r` and `t` are what archiving project `id` at `now` gives in `s`.
pub open spec fn archive_outcome(s: DbState, t: DbState, id: Seq<char>, now: String, r: Result<(), DbError>) -> bool {
    match r {
        Ok(()) => {
            let k = project_pos(s, id);
            &&& has_project(s, id)
            &&& t == with_project(
                s,
                k,
                Project { archived_at: Some(now), ..s.projects[k] },
            )
        },
        Err(e) => !has_project(s, id) && is_project_not_found(e, id) && t
            == s,
    }
}

/// `r` and `t` are what unarchiving project `id` gives in `s`.
pub open spec fn unarchive_outcome(s: DbState, t: DbState, id: Seq<char>, r: Result<(), DbError>) -> bool {
    match r {
        Ok(()) => {
            let k = project_pos(s, id);
            &&& has_project(s, id)
            &&& t == with_project(
                s,
                k,
                Project { archived_at: None, ..s.projects[k] },
            )
        },
        Err(e) => !has_project(s, id) && is_project_not_found(e, id) && t == s,
    }
}

/// `r` and `t` are what creating a tag from `input` with id `id` gives in `s`.
pub open spec fn create_tag_outcome(s: DbState, t: DbState, input: CreateTagInput, id: String, r: Result<Tag, DbError>) -> bool {
    match r {
        Ok(tag) => {
            &&& !has_tag(s, id@)
            &&& tag == (Tag { id: id, name: input.name, color: input.color })
            &&& t == DbState { tags: s.tags.push(tag), ..s }
        },
        Err(e) => has_tag(s, id@) && is_sqlite_error(e, "UNIQUE constraint failed: tags.id"@)
            && t == s,
    }
}

// ===== Lookups =====

impl Database {
    /// The position of project `id`.
    fn project_index(&self, id: &str) -> (r: Option<usize>)
        ensures
            match r {
                Some(k) => k < self@.projects.len() && self@.projects[k as int].id@ == id@,
                None => !has_project(self@, id@),
            },
    {
        let n = self.projects.len();
        let mut i: usize = 0;
        while i < n
            invariant
                n == self@.projects.len(),
                i <= n,
                forall|k: int| 0 <= k < i ==> (#[trigger] self@.projects[k]).id@ != id@,
            decreases n - i,
        {
            if str_eq(self.projects[i].id.as_str(), id) {
                return Some(i);
            }
            i += 1;
        }
        None
    }

    /// The position of tag `id`.
    fn tag_index(&self, id: &str) -> (r: Option<usize>)
        ensures
            match r {
                Some(k) => k < self@.tags.len() && self@.tags[k as int].id@ == id@,
                None => !has_tag(self@, id@),
            },
    {
        let n = self.tags.len();
        let mut i: usize = 0;
        while i < n
            invariant
                n == self@.tags.len(),
                i <= n,
                forall|k: int| 0 <= k < i ==> (#[trigger] self@.tags[k]).id@ != id@,
            decreases n - i,
        {
            if str_eq(self.tags[i].id.as_str(), id) {
                return Some(i);
            }
            i += 1;
        }
        None
    }

    /// The position of a project other than `except` with path `path`.
    fn path_index(&self, path: &str, except: usize) -> (r: Option<usize>)
        ensures
            match r {
                Some(k) => k < self@.projects.len() && k != except && self@.projects[k as int].path@ == path@,
                None => !path_taken(self@, path@, except as int),
            },
    {
        let n = self.projects.len();
        let mut i: usize = 0;
        while i < n
            invariant
                n == self@.projects.len(),
                i <= n,
                forall|k: int| 0 <= k < i && k != except ==> (#[trigger] self@.projects[k]).path@ != path@,
            decreases n - i,
        {
            if i != except && str_eq(self.projects[i].path.as_str(), path) {
                return Some(i);
            }
            i += 1;
        }
        None
    }
}

// ===== Projects: create, update, touch, archive =====

/// The project that `create_project` stores.
pub open spec fn new_project(input: CreateProjectInput, id: String, now: String) -> Project {
    Project {
        id,
        name: input.name,
        path: input.path,
        local_path: input.local_path,
        last_opened: now,
        created_at: now,
        archived_at: None,
    }
}

/// `p` with the name of `input` applied, if given.
pub open spec fn renamed(p: Project, input: UpdateProjectInput) -> Project {
    match input.name {
        Some(n) => Project { name: n, ..p },
        None => p,
    }
}

/// `p` with every field that `input` gives applied, and opened at `now`.
pub open spec fn updated_project(p: Project, input: UpdateProjectInput, now: String) -> Project {
    let p1 = renamed(p, input);
    let p2 = match input.path {
        Some(x) => Project { path: x, ..p1 },
        None => p1,
    };
    let p3 = match input.local_path {
        Some(l) => Project { local_path: Some(l), ..p2 },
        None => p2,
    };
    Project { last_opened: now, ..p3 }
}

/// The state with project `k` replaced by `p`.
pub open spec fn with_project(s: DbState, k: int, p: Project) -> DbState {
    DbState { projects: s.projects.update(k, p), ..s }
}

impl Database {
    fn error_message(msg: &str) -> (r: DbError)
        ensures
            is_sqlite_error(r, msg@),
    {
        DbError::Sqlite(String::from_str(msg))
    }

    /// Creates a project with the given id and creation time.
    pub fn create_project_with(&mut self, input: CreateProjectInput, id: String, now: String) -> (r:
        Result<Project, DbError>)
        requires
            old(self).wf(),
        ensures
            final(self).wf(),
            create_project_outcome(old(self)@, final(self)@, input, id, now, r),
    {
        if self.project_index(id.as_str()).is_some() {
            return Err(Self::error_message("UNIQUE constraint failed: projects.id"));
        }
        let n = self.projects.len();
        if let Some(_) = self.path_index(input.path.as_str(), n) {
            return Err(Self::error_message("UNIQUE constraint failed: projects.path"));
        }
        proof {
            assert(!path_taken(old(self)@, input.path@, -1)) by {
                if path_taken(old(self)@, input.path@, -1) {
                    let k = choose|k: int|
                        0 <= k < old(self)@.projects.len() && k != -1 && (#[trigger] old(self)@.projects[k]).path@
                            == input.path@;
                    assert(k != n);
                }
            }
        }
        let project = Project {
            id,
            name: input.name,
            path: input.path,
            local_path: input.local_path,
            last_opened: now.clone(),
            created_at: now,
            archived_at: None,
        };
        let ghost s = self@;
        self.projects.push(project.duplicate());
        proof {
            let t = self@;
            assert forall|i: int, j: int|
                0 <= i < j < t.projects.len() implies (#[trigger] t.projects[i]).id@ != (
                #[trigger] t.projects[j]).id@ && t.projects[i].path@ != t.projects[j].path@ by {
                assert(t.projects[i] == s.projects[i]);
                if j < n {
                    assert(t.projects[j] == s.projects[j]);
                } else {
                    assert(s.projects[i].id@ != project.id@);
                    assert(s.projects[i].path@ != project.path@);
                }
            }
            assert forall|id2: Seq<char>| has_project(s, id2) implies has_project(t, id2) by {
                let q = choose|q: int| 0 <= q < s.projects.len() && (#[trigger] s.projects[q]).id@ == id2;
                assert(t.projects[q] == s.projects[q]);
            }
            lemma_wf_projects_changed(s, t);
        }
        Ok(project)
    }

    /// Updates the given fields of project `id` and sets `last_opened` to `now`.
    /// When the new path belongs to another project the update stops there,
    /// with the name already changed.
    pub fn update_project_with(&mut self, id: &str, input: UpdateProjectInput, now: String) -> (r:
        Result<Project, DbError>)
        requires
            old(self).wf(),
        ensures
            final(self).wf(),
            update_project_outcome(old(self)@, final(self)@, id@, input, now, r),
    {
        let k = match self.project_index(id) {
            Some(k) => k,
            None => {
                return Err(DbError::ProjectNotFound(String::from_str(id)));
            },
        };
        proof {
            lemma_project_pos(self@, k as int);
        }
        let ghost s = self@;
        let ghost input0 = input;
        let UpdateProjectInput { name, path, local_path } = input;
        let mut p = self.projects[k].duplicate();
        if let Some(n) = name {
            p.name = n;
        }
        assert(p == renamed(s.projects[k as int], input0));
        proof {
            assert(!path_taken(s, p.path@, k as int)) by {
                if path_taken(s, p.path@, k as int) {
                    let q = choose|q: int|
                        0 <= q < s.projects.len() && q != k && (#[trigger] s.projects[q]).path@ == p.path@;
                    if q < k {
                        assert(s.projects[q].path@ != s.projects[k as int].path@);
                    } else {
                        assert(s.projects[k as int].path@ != s.projects[q].path@);
                    }
                }
            }
            lemma_wf_replace_project(s, k as int, p);
        }
        self.projects.set(k, p.duplicate());
        assert(self@ == with_project(s, k as int, p));
        if let Some(x) = path {
            if self.path_index(x.as_str(), k).is_some() {
                proof {
                    assert(path_taken(s, x@, k as int)) by {
                        let q = choose|q: int|
                            0 <= q < self@.projects.len() && q != k && (#[trigger] self@.projects[q]).path@ == x@;
                        assert(s.projects[q] == self@.projects[q]);
                    }
                }
                return Err(Self::error_message("UNIQUE constraint failed: projects.path"));
            }
            proof {
                assert(!path_taken(s, x@, k as int)) by {
                    if path_taken(s, x@, k as int) {
                        let q = choose|q: int|
                            0 <= q < s.projects.len() && q != k && (#[trigger] s.projects[q]).path@ == x@;
                        assert(self@.projects[q] == s.projects[q]);
                    }
                }
            }
            p.path = x;
        }
        if let Some(l) = local_path {
            p.local_path = Some(l);
        }
        p.last_opened = now;
        assert(p == updated_project(s.projects[k as int], input0, now));
        proof {
            assert(!path_taken(s, p.path@, k as int)) by {
                if path_taken(s, p.path@, k as int) {
                    let q = choose|q: int|
                        0 <= q < s.projects.len() && q != k && (#[trigger] s.projects[q]).path@ == p.path@;
                    if input0.path is None {
                        if q < k {
                            assert(s.projects[q].path@ != s.projects[k as int].path@);
                        } else {
                            assert(s.projects[k as int].path@ != s.projects[q].path@);
                        }
                    }
                }
            }
            lemma_wf_replace_project(s, k as int, p);
        }
        self.projects.set(k, p.duplicate());
        assert(self@.projects =~= s.projects.update(k as int, p));
        assert(self@ == with_project(s, k as int, p));
        Ok(p)
    }

    /// Replaces the project at position `k` with `p`, which keeps its id
    /// and path.
    fn replace_project(&mut self, k: usize, p: Project)
        requires
            old(self).wf(),
            k < old(self)@.projects.len(),
            p.id@ == old(self)@.projects[k as int].id@,
            p.path == old(self)@.projects[k as int].path,
        ensures
            final(self).wf(),
            final(self)@ == with_project(old(self)@, k as int, p),
    {
        proof {
            let s = self@;
            assert(!path_taken(s, p.path@, k as int)) by {
                if path_taken(s, p.path@, k as int) {
                    let q = choose|q: int|
                        0 <= q < s.projects.len() && q != k && (#[trigger] s.projects[q]).path@ == p.path@;
                    if q < k {
                        assert(s.projects[q].path@ != s.projects[k as int].path@);
                    } else {
                        assert(s.projects[k as int].path@ != s.projects[q].path@);
                    }
                }
            }
            lemma_wf_replace_project(s, k as int, p);
        }
        self.projects.set(k, p);
    }

    /// Sets `last_opened` of project `id` to `now`, touching no other field.
    pub fn touch_project_at(&mut self, id: &str, now: String) -> (r: Result<(), DbError>)
        requires
            old(self).wf(),
        ensures
            final(self).wf(),
            touch_outcome(old(self)@, final(self)@, id@, now, r),
    {
        match self.project_index(id) {
            None => Err(DbError::ProjectNotFound(String::from_str(id))),
            Some(k) => {
                proof {
                    lemma_project_pos(self@, k as int);
                }
                let mut p = self.projects[k].duplicate();
                p.last_opened = now;
                self.replace_project(k, p);
                Ok(())
            },
        }
    }

    /// Sets `archived_at` of project `id` to `now`.
    pub fn archive_project_at(&mut self, id: &str, now: String) -> (r: Result<(), DbError>)
        requires
            old(self).wf(),
        ensures
            final(self).wf(),
            archive_outcome(old(self)@, final(self)@, id@, now, r),
    {
        match self.project_index(id) {
            None => Err(DbError::ProjectNotFound(String::from_str(id))),
            Some(k) => {
                proof {
                    lemma_project_pos(self@, k as int);
                }
                let mut p = self.projects[k].duplicate();
                p.archived_at = Some(now);
                self.replace_project(k, p);
                Ok(())
            },
        }
    }

    /// Clears `archived_at` of project `id`.
    pub fn unarchive_project(&mut self, id: &str) -> (r: Result<(), DbError>)
        requires
            old(self).wf(),
        ensures
            final(self).wf(),
            unarchive_outcome(old(self)@, final(self)@, id@, r),
    {
        match self.project_index(id) {
            None => Err(DbError::ProjectNotFound(String::from_str(id))),
            Some(k) => {
                proof {
                    lemma_project_pos(self@, k as int);
                }
                let mut p = self.projects[k].duplicate();
                p.archived_at = None;
                self.replace_project(k, p);
                Ok(())
            },
        }
    }
}

// ===== Removal with cascade =====

/// The elements of `s` that satisfy `f`, in order.
pub open spec fn keep<A>(s: Seq<A>, f: spec_fn(A) -> bool) -> Seq<A>
    decreases s.len(),
{
    if s.len() == 0 {
        seq![]
    } else {
        let r = keep(s.drop_last(), f);
        if f(s.last()) {
            r.push(s.last())
        } else {
            r
        }
    }
}

/// An element is kept exactly when it is in the sequence and satisfies `f`.
pub(crate) proof fn lemma_keep_member<A>(s: Seq<A>, f: spec_fn(A) -> bool, x: A)
    ensures
        keep(s, f).contains(x) <==> (s.contains(x) && f(x)),
    decreases s.len(),
{
    if s.len() > 0 {
        let init = s.drop_last();
        lemma_keep_member(init, f, x);
        let r0 = keep(init, f);
        let r = keep(s, f);
        if r.contains(x) {
            let k = choose|k: int| 0 <= k < r.len() && r[k] == x;
            if k < r0.len() {
                assert(r0[k] == x);
                let j = choose|j: int| 0 <= j < init.len() && init[j] == x;
                assert(s[j] == x);
            } else {
                assert(s[s.len() - 1] == x);
            }
        }
        if s.contains(x) && f(x) {
            let j = choose|j: int| 0 <= j < s.len() && s[j] == x;
            if j < s.len() - 1 {
                assert(init[j] == x);
                let k = choose|k: int| 0 <= k < r0.len() && r0[k] == x;
                assert(r[k] == x);
            } else {
                assert(r[r.len() - 1] == x);
            }
        }
    }
}

/// Keys that are distinct in a sequence stay distinct in what `keep` keeps.
pub(crate) proof fn lemma_keep_unique<A, K>(s: Seq<A>, f: spec_fn(A) -> bool, key: spec_fn(A) -> K)
    requires
        forall|i: int, j: int| 0 <= i < j < s.len() ==> key(#[trigger] s[i]) != key(#[trigger] s[j]),
    ensures
        forall|i: int, j: int|
            0 <= i < j < keep(s, f).len() ==> key(#[trigger] keep(s, f)[i]) != key(#[trigger] keep(s, f)[j]),
    decreases s.len(),
{
    if s.len() > 0 {
        let init = s.drop_last();
        assert forall|i: int, j: int| 0 <= i < j < init.len() implies key(#[trigger] init[i]) != key(
            #[trigger] init[j]) by {
            assert(init[i] == s[i] && init[j] == s[j]);
        }
        lemma_keep_unique(init, f, key);
        let r0 = keep(init, f);
        let r = keep(s, f);
        assert forall|i: int, j: int| 0 <= i < j < r.len() implies key(#[trigger] r[i]) != key(#[trigger] r[j]) by {
            if j < r0.len() {
                assert(r[i] == r0[i] && r[j] == r0[j]);
            } else {
                assert(r[i] == r0[i]);
                assert(r[j] == s.last());
                lemma_keep_member(init, f, r0[i]);
                assert(r0.contains(r0[i]));
                let q = choose|q: int| 0 <= q < init.len() && init[q] == r0[i];
                assert(s[q] == init[q]);
            }
        }
    }
}

/// Links that are not of project `pid`.
pub open spec fn not_of_project(pid: Seq<char>) -> spec_fn((String, String)) -> bool {
    |l: (String, String)| l.0@ != pid
}

/// Links that are not of tag `tid`.
pub open spec fn not_of_tag(tid: Seq<char>) -> spec_fn((String, String)) -> bool {
    |l: (String, String)| l.1@ != tid
}

/// Links other than (`pid`, `tid`).
pub open spec fn not_link(pid: Seq<char>, tid: Seq<char>) -> spec_fn((String, String)) -> bool {
    |l: (String, String)| !(l.0@ == pid && l.1@ == tid)
}

/// Counts rows that are not of project `pid`.
pub open spec fn counts_not_of(pid: Seq<char>) -> spec_fn((String, CachedCounts)) -> bool {
    |c: (String, CachedCounts)| c.0@ != pid
}

/// The key of a link.
pub open spec fn link_key() -> spec_fn((String, String)) -> (Seq<char>, Seq<char>) {
    |l: (String, String)| (l.0@, l.1@)
}

/// The key of a counts row.
pub open spec fn counts_key() -> spec_fn((String, CachedCounts)) -> Seq<char> {
    |c: (String, CachedCounts)| c.0@
}

fn keep_links(v: &Vec<(String, String)>, pid: Option<&str>, tid: Option<&str>) -> (r: Vec<(String, String)>)
    ensures
        r@ == keep(
            v@,
            match (pid, tid) {
                (Some(p), Some(t)) => not_link(p@, t@),
                (Some(p), None) => not_of_project(p@),
                (None, Some(t)) => not_of_tag(t@),
                (None, None) => |l: (String, String)| true,
            },
        ),
{
    let ghost f = match (pid, tid) {
        (Some(p), Some(t)) => not_link(p@, t@),
        (Some(p), None) => not_of_project(p@),
        (None, Some(t)) => not_of_tag(t@),
        (None, None) => |l: (String, String)| true,
    };
    let mut r: Vec<(String, String)> = Vec::new();
    let n = v.len();
    let mut i: usize = 0;
    while i < n
        invariant
            n == v@.len(),
            i <= n,
            f == match (pid, tid) {
                (Some(p), Some(t)) => not_link(p@, t@),
                (Some(p), None) => not_of_project(p@),
                (None, Some(t)) => not_of_tag(t@),
                (None, None) => |l: (String, String)| true,
            },
            r@ == keep(v@.take(i as int), f),
        decreases n - i,
    {
        let ghost t = v@.take(i + 1);
        assert(t.drop_last() =~= v@.take(i as int));
        assert(t.last() == v@[i as int]);
        let mp = match pid {
            Some(p) => str_eq(v[i].0.as_str(), p),
            None => true,
        };
        let mt = match tid {
            Some(t) => str_eq(v[i].1.as_str(), t),
            None => true,
        };
        let drop = match (pid, tid) {
            (None, None) => false,
            _ => mp && mt,
        };
        if !drop {
            r.push((v[i].0.clone(), v[i].1.clone()));
        }
        i += 1;
    }
    assert(v@.take(n as int) =~= v@);
    r
}

fn keep_counts(v: &Vec<(String, CachedCounts)>, pid: &str) -> (r: Vec<(String, CachedCounts)>)
    ensures
        r@ == keep(v@, counts_not_of(pid@)),
{
    let mut r: Vec<(String, CachedCounts)> = Vec::new();
    let n = v.len();
    let mut i: usize = 0;
    while i < n
        invariant
            n == v@.len(),
            i <= n,
            r@ == keep(v@.take(i as int), counts_not_of(pid@)),
        decreases n - i,
    {
        let ghost t = v@.take(i + 1);
        assert(t.drop_last() =~= v@.take(i as int));
        assert(t.last() == v@[i as int]);
        if !str_eq(v[i].0.as_str(), pid) {
            r.push((v[i].0.clone(), v[i].1.duplicate()));
        }
        i += 1;
    }
    assert(v@.take(n as int) =~= v@);
    r
}

/// The state after deleting project `k` and everything that refers to it.
pub open spec fn without_project(s: DbState, k: int) -> DbState {
    let pid = s.projects[k].id@;
    DbState {
        projects: s.projects.remove(k),
        tags: s.tags,
        links: keep(s.links, not_of_project(pid)),
        counts: keep(s.counts, counts_not_of(pid)),
    }
}

/// The state after deleting tag `k` and its links.
pub open spec fn without_tag(s: DbState, k: int) -> DbState {
    DbState { tags: s.tags.remove(k), links: keep(s.links, not_of_tag(s.tags[k].id@)), ..s }
}

impl Database {
    /// Deletes project `id`; its tag links and cached counts go with it.
    pub fn delete_project(&mut self, id: &str) -> (r: Result<(), DbError>)
        requires
            old(self).wf(),
        ensures
            final(self).wf(),
            match r {
                Ok(()) => has_project(old(self)@, id@) && final(self)@ == without_project(
                    old(self)@,
                    project_pos(old(self)@, id@),
                ),
                Err(e) => !has_project(old(self)@, id@) && is_project_not_found(e, id@) && final(self)@
                    == old(self)@,
            },
    {
        let k = match self.project_index(id) {
            Some(k) => k,
            None => {
                return Err(DbError::ProjectNotFound(String::from_str(id)));
            },
        };
        let ghost s = self@;
        proof {
            lemma_project_pos(s, k as int);
        }
        let links = keep_links(&self.project_tags, Some(id), None);
        let counts = keep_counts(&self.bead_counts, id);
        self.projects.remove(k);
        self.project_tags = links;
        self.bead_counts = counts;
        proof {
            let t = self@;
            let pid = id@;
            assert(t == without_project(s, k as int));
            assert forall|i: int, j: int|
                0 <= i < j < t.projects.len() implies (#[trigger] t.projects[i]).id@ != (
                #[trigger] t.projects[j]).id@ && t.projects[i].path@ != t.projects[j].path@ by {
                if j < k {
                    assert(t.projects[i] == s.projects[i] && t.projects[j] == s.projects[j]);
                } else if i < k {
                    assert(t.projects[i] == s.projects[i] && t.projects[j] == s.projects[j + 1]);
                } else {
                    assert(t.projects[i] == s.projects[i + 1] && t.projects[j] == s.projects[j + 1]);
                }
            }
            assert forall|q: Seq<char>| has_project(s, q) && q != pid implies has_project(t, q) by {
                let w = choose|w: int| 0 <= w < s.projects.len() && (#[trigger] s.projects[w]).id@ == q;
                if w < k {
                    assert(t.projects[w] == s.projects[w]);
                } else {
                    assert(w != k);
                    assert(t.projects[w - 1] == s.projects[w]);
                }
            }
            assert forall|i: int| 0 <= i < t.links.len() implies has_project(t, (#[trigger] t.links[i]).0@)
                && has_tag(t, t.links[i].1@) by {
                let l = t.links[i];
                lemma_keep_member(s.links, not_of_project(pid), l);
                assert(t.links.contains(l));
                let w = choose|w: int| 0 <= w < s.links.len() && s.links[w] == l;
                assert(has_project(s, s.links[w].0@));
                assert(has_tag(s, s.links[w].1@));
                assert(not_of_project(pid)(l));
                assert(l.0@ != pid);
                let q = choose|q: int| 0 <= q < s.tags.len() && (#[trigger] s.tags[q]).id@ == l.1@;
                assert(t.tags[q] == s.tags[q]);
            }
            lemma_keep_unique(s.links, not_of_project(pid), link_key());
            assert forall|i: int, j: int|
                0 <= i < j < t.links.len() implies !((#[trigger] t.links[i]).0@ == (#[trigger] t.links[j]).0@
                && t.links[i].1@ == t.links[j].1@) by {
                assert(link_key()(t.links[i]) != link_key()(t.links[j]));
            }
            assert forall|i: int| 0 <= i < t.counts.len() implies has_project(t, (#[trigger] t.counts[i]).0@) by {
                let c = t.counts[i];
                lemma_keep_member(s.counts, counts_not_of(pid), c);
                assert(t.counts.contains(c));
                let w = choose|w: int| 0 <= w < s.counts.len() && s.counts[w] == c;
                assert(has_project(s, s.counts[w].0@));
            }
            assert forall|i: int, j: int| 0 <= i < j < s.counts.len() implies counts_key()(
                #[trigger] s.counts[i]) != counts_key()(#[trigger] s.counts[j]) by {}
            lemma_keep_unique(s.counts, counts_not_of(pid), counts_key());
            assert forall|i: int, j: int|
                0 <= i < j < t.counts.len() implies (#[trigger] t.counts[i]).0@ != (#[trigger] t.counts[j]).0@ by {
                assert(counts_key()(t.counts[i]) != counts_key()(t.counts[j]));
            }
        }
        Ok(())
    }

    /// Deletes tag `id`; its links to projects go with it.
    pub fn delete_tag(&mut self, id: &str) -> (r: Result<(), DbError>)
        requires
            old(self).wf(),
        ensures
            final(self).wf(),
            match r {
                Ok(()) => has_tag(old(self)@, id@) && final(self)@ == without_tag(
                    old(self)@,
                    tag_pos(old(self)@, id@),
                ),
                Err(e) => !has_tag(old(self)@, id@) && is_tag_not_found(e, id@) && final(self)@ == old(self)@,
            },
    {
        let k = match self.tag_index(id) {
            Some(k) => k,
            None => {
                return Err(DbError::TagNotFound(String::from_str(id)));
            },
        };
        let ghost s = self@;
        proof {
            lemma_tag_pos(s, k as int);
        }
        let links = keep_links(&self.project_tags, None, Some(id));
        self.tags.remove(k);
        self.project_tags = links;
        proof {
            let t = self@;
            let tid = id@;
            assert(t == without_tag(s, k as int));
            assert forall|i: int, j: int|
                0 <= i < j < t.tags.len() implies (#[trigger] t.tags[i]).id@ != (#[trigger] t.tags[j]).id@ by {
                if j < k {
                    assert(t.tags[i] == s.tags[i] && t.tags[j] == s.tags[j]);
                } else if i < k {
                    assert(t.tags[i] == s.tags[i] && t.tags[j] == s.tags[j + 1]);
                } else {
                    assert(t.tags[i] == s.tags[i + 1] && t.tags[j] == s.tags[j + 1]);
                }
            }
            assert forall|i: int| 0 <= i < t.links.len() implies has_project(t, (#[trigger] t.links[i]).0@)
                && has_tag(t, t.links[i].1@) by {
                let l = t.links[i];
                lemma_keep_member(s.links, not_of_tag(tid), l);
                assert(t.links.contains(l));
                let w = choose|w: int| 0 <= w < s.links.len() && s.links[w] == l;
                assert(has_project(s, s.links[w].0@));
                assert(has_tag(s, s.links[w].1@));
                let q = choose|q: int| 0 <= q < s.tags.len() && (#[trigger] s.tags[q]).id@ == l.1@;
                assert(q != k);
                if q < k {
                    assert(t.tags[q] == s.tags[q]);
                } else {
                    assert(t.tags[q - 1] == s.tags[q]);
                }
            }
            lemma_keep_unique(s.links, not_of_tag(tid), link_key());
            assert forall|i: int, j: int|
                0 <= i < j < t.links.len() implies !((#[trigger] t.links[i]).0@ == (#[trigger] t.links[j]).0@
                && t.links[i].1@ == t.links[j].1@) by {
                assert(link_key()(t.links[i]) != link_key()(t.links[j]));
            }
        }
        Ok(())
    }

    /// Removes tag `tag_id` from project `project_id` (nothing happens when
    /// the project does not carry it).
    pub fn remove_tag_from_project(&mut self, project_id: &str, tag_id: &str) -> (r: Result<(), DbError>)
        requires
            old(self).wf(),
        ensures
            final(self).wf(),
            r.is_ok(),
            final(self)@ == (DbState {
                links: keep(old(self)@.links, not_link(project_id@, tag_id@)),
                ..old(self)@
            }),
    {
        let ghost s = self@;
        let links = keep_links(&self.project_tags, Some(project_id), Some(tag_id));
        self.project_tags = links;
        proof {
            let t = self@;
            let f = not_link(project_id@, tag_id@);
            assert forall|i: int| 0 <= i < t.links.len() implies has_project(t, (#[trigger] t.links[i]).0@)
                && has_tag(t, t.links[i].1@) by {
                let l = t.links[i];
                lemma_keep_member(s.links, f, l);
                assert(t.links.contains(l));
                let w = choose|w: int| 0 <= w < s.links.len() && s.links[w] == l;
                assert(has_project(s, s.links[w].0@));
                assert(has_tag(s, s.links[w].1@));
                let q = choose|q: int| 0 <= q < s.tags.len() && (#[trigger] s.tags[q]).id@ == l.1@;
                assert(t.tags[q] == s.tags[q]);
                let q2 = choose|q2: int| 0 <= q2 < s.projects.len() && (#[trigger] s.projects[q2]).id@ == l.0@;
                assert(t.projects[q2] == s.projects[q2]);
            }
            lemma_keep_unique(s.links, f, link_key());
            assert forall|i: int, j: int|
                0 <= i < j < t.links.len() implies !((#[trigger] t.links[i]).0@ == (#[trigger] t.links[j]).0@
                && t.links[i].1@ == t.links[j].1@) by {
                assert(link_key()(t.links[i]) != link_key()(t.links[j]));
            }
        }
        Ok(())
    }
}

// ===== Listings =====

/// `r` holds the same elements as `f`, as many of them.
pub open spec fn same_elements<A>(r: Seq<A>, f: Seq<A>) -> bool {
    r.len() == f.len() && forall|x: A| r.contains(x) <==> f.contains(x)
}

/// Most recently opened first.
pub open spec fn sorted_by_last_opened_desc(r: Seq<Project>) -> bool {
    forall|i: int, j: int| 0 <= i < j < r.len() ==> !seq_lt(#[trigger] r[i].last_opened@, #[trigger] r[j].last_opened@)
}

/// In order of name.
pub open spec fn sorted_by_name(r: Seq<Tag>) -> bool {
    forall|i: int, j: int| 0 <= i < j < r.len() ==> !seq_lt(#[trigger] r[j].name@, #[trigger] r[i].name@)
}

/// Projects that a listing shows: all, or only those not archived.
pub open spec fn listed(include_archived: bool) -> spec_fn(Project) -> bool {
    |p: Project| include_archived || p.archived_at is None
}

/// `r` lists the projects of `s` that `include_archived` admits, most recently opened first.
pub open spec fn is_project_listing(s: DbState, include_archived: bool, r: Seq<Project>) -> bool {
    same_elements(r, keep(s.projects, listed(include_archived))) && sorted_by_last_opened_desc(r)
}

/// Tags that project `pid` carries.
pub open spec fn tag_of(s: DbState, pid: Seq<char>) -> spec_fn(Tag) -> bool {
    |t: Tag| has_link(s, pid, t.id@)
}

/// `r` lists the tags of project `pid`, by name.
pub open spec fn is_tag_listing(s: DbState, pid: Seq<char>, r: Seq<Tag>) -> bool {
    same_elements(r, keep(s.tags, tag_of(s, pid))) && sorted_by_name(r)
}

/// `r` lists all tags, by name.
pub open spec fn is_all_tags_listing(s: DbState, r: Seq<Tag>) -> bool {
    same_elements(r, s.tags) && sorted_by_name(r)
}

/// The project part of a project with tags.
pub open spec fn project_part(p: ProjectWithTags) -> Project {
    Project {
        id: p.id,
        name: p.name,
        path: p.path,
        local_path: p.local_path,
        last_opened: p.last_opened,
        created_at: p.created_at,
        archived_at: p.archived_at,
    }
}

/// Sorts projects, most recently opened first (stable).
fn sort_projects(v: Vec<Project>) -> (r: Vec<Project>)
    ensures
        same_elements(r@, v@),
        sorted_by_last_opened_desc(r@),
{
    let ghost f = v@;
    let mut out: Vec<Project> = Vec::new();
    let n = v.len();
    let mut i: usize = 0;
    for x in it: v.into_iter()
        invariant
            it.seq() == f,
            n == f.len(),
            i == it.index(),
            out@.len() == i,
            forall|y: Project| out@.contains(y) <==> f.take(i as int).contains(y),
            sorted_by_last_opened_desc(out@),
    {
        let ghost o = out@;
        assert(x == f[i as int]);
        let m = out.len();
        let mut q: usize = 0;
        while q < m && !str_lt(out[q].last_opened.as_str(), x.last_opened.as_str())
            invariant
                m == out@.len(),
                o == out@,
                q <= m,
                forall|k: int| 0 <= k < q ==> !seq_lt((#[trigger] o[k]).last_opened@, x.last_opened@),
            decreases m - q,
        {
            q += 1;
        }
        let ghost xv = x;
        out.insert(q, x);
        proof {
            let o2 = out@;
            assert(o2 =~= o.insert(q as int, xv));
            assert forall|a: int, b: int| 0 <= a < b < o2.len() implies !seq_lt(
                #[trigger] o2[a].last_opened@,
                #[trigger] o2[b].last_opened@,
            ) by {
                if b < q {
                    assert(o2[a] == o[a] && o2[b] == o[b]);
                } else if b == q {
                    assert(o2[a] == o[a] && o2[b] == xv);
                } else if a > q {
                    assert(o2[a] == o[a - 1] && o2[b] == o[b - 1]);
                } else {
                    // a <= q < b: o2[b] == o[b - 1], which is no later than o[q] < x
                    assert(o2[b] == o[b - 1]);
                    assert(seq_lt(o[q as int].last_opened@, xv.last_opened@));
                    if seq_lt(o2[a].last_opened@, o[b - 1].last_opened@) {
                        if a < q {
                            assert(o2[a] == o[a]);
                            if b - 1 > q {
                                assert(!seq_lt(o[q as int].last_opened@, o[b - 1].last_opened@));
                            }
                            lemma_lt_total(o[q as int].last_opened@, o[b - 1].last_opened@);
                            lemma_lt_total(o[a].last_opened@, xv.last_opened@);
                            if b - 1 > q {
                                if seq_lt(o[b - 1].last_opened@, o[q as int].last_opened@) {
                                    lemma_lt_transitive(o[a].last_opened@, o[b - 1].last_opened@, o[q as int].last_opened@);
                                    lemma_lt_transitive(o[a].last_opened@, o[q as int].last_opened@, xv.last_opened@);
                                } else {
                                    lemma_lt_transitive(o[a].last_opened@, o[b - 1].last_opened@, xv.last_opened@);
                                }
                            } else {
                                lemma_lt_transitive(o[a].last_opened@, o[b - 1].last_opened@, xv.last_opened@);
                            }
                        } else {
                            assert(o2[a] == xv);
                            if b - 1 > q {
                                lemma_lt_total(o[q as int].last_opened@, o[b - 1].last_opened@);
                                if seq_lt(o[b - 1].last_opened@, o[q as int].last_opened@) {
                                    lemma_lt_transitive(xv.last_opened@, o[b - 1].last_opened@, o[q as int].last_opened@);
                                }
                                lemma_lt_transitive(o[q as int].last_opened@, xv.last_opened@, o[b - 1].last_opened@);
                            } else {
                                lemma_lt_transitive(o[q as int].last_opened@, xv.last_opened@, o[b - 1].last_opened@);
                            }
                            crate::text::lemma_lt_irreflexive(o[q as int].last_opened@);
                        }
                    }
                }
            }
            let t0 = f.take(i as int);
            let t1 = f.take(i + 1);
            assert(t1 =~= t0.push(xv));
            assert forall|y: Project| o2.contains(y) <==> t1.contains(y) by {
                if o2.contains(y) {
                    let w = choose|w: int| 0 <= w < o2.len() && o2[w] == y;
                    if w < q {
                        assert(o[w] == y);
                        assert(o.contains(y));
                        assert(t0.contains(y));
                        let z = choose|z: int| 0 <= z < t0.len() && t0[z] == y;
                        assert(t1[z] == y);
                    } else if w > q {
                        assert(o[w - 1] == y);
                        assert(o.contains(y));
                        assert(t0.contains(y));
                        let z = choose|z: int| 0 <= z < t0.len() && t0[z] == y;
                        assert(t1[z] == y);
                    } else {
                        assert(t1[i as int] == y);
                    }
                }
                if t1.contains(y) {
                    let z = choose|z: int| 0 <= z < t1.len() && t1[z] == y;
                    if z < i {
                        assert(t0[z] == y);
                        assert(o.contains(y));
                        let w = choose|w: int| 0 <= w < o.len() && o[w] == y;
                        if w < q {
                            assert(o2[w] == y);
                        } else {
                            assert(o2[w + 1] == y);
                        }
                    } else {
                        assert(o2[q as int] == y);
                    }
                }
            }
        }
        i += 1;
    }
    assert(f.take(n as int) =~= f);
    out
}

/// Sorts tags by name (stable).
fn sort_tags(v: Vec<Tag>) -> (r: Vec<Tag>)
    ensures
        same_elements(r@, v@),
        sorted_by_name(r@),
{
    let ghost f = v@;
    let mut out: Vec<Tag> = Vec::new();
    let n = v.len();
    let mut i: usize = 0;
    for x in it: v.into_iter()
        invariant
            it.seq() == f,
            n == f.len(),
            i == it.index(),
            out@.len() == i,
            forall|y: Tag| out@.contains(y) <==> f.take(i as int).contains(y),
            sorted_by_name(out@),
    {
        let ghost o = out@;
        assert(x == f[i as int]);
        let m = out.len();
        let mut q: usize = 0;
        while q < m && !str_lt(x.name.as_str(), out[q].name.as_str())
            invariant
                m == out@.len(),
                o == out@,
                q <= m,
                forall|k: int| 0 <= k < q ==> !seq_lt(x.name@, (#[trigger] o[k]).name@),
            decreases m - q,
        {
            q += 1;
        }
        let ghost xv = x;
        out.insert(q, x);
        proof {
            let o2 = out@;
            assert(o2 =~= o.insert(q as int, xv));
            assert forall|a: int, b: int| 0 <= a < b < o2.len() implies !seq_lt(
                #[trigger] o2[b].name@,
                #[trigger] o2[a].name@,
            ) by {
                if b < q {
                    assert(o2[a] == o[a] && o2[b] == o[b]);
                } else if b == q {
                    assert(o2[a] == o[a] && o2[b] == xv);
                } else if a > q {
                    assert(o2[a] == o[a - 1] && o2[b] == o[b - 1]);
                } else {
                    assert(o2[b] == o[b - 1]);
                    assert(seq_lt(xv.name@, o[q as int].name@));
                    if seq_lt(o[b - 1].name@, o2[a].name@) {
                        if a < q {
                            assert(o2[a] == o[a]);
                            lemma_lt_total(o[q as int].name@, o[b - 1].name@);
                            lemma_lt_total(o[a].name@, xv.name@);
                            if b - 1 > q {
                                if seq_lt(o[q as int].name@, o[b - 1].name@) {
                                    lemma_lt_transitive(xv.name@, o[q as int].name@, o[b - 1].name@);
                                    lemma_lt_transitive(xv.name@, o[b - 1].name@, o[a].name@);
                                } else {
                                    lemma_lt_transitive(xv.name@, o[b - 1].name@, o[a].name@);
                                }
                            } else {
                                lemma_lt_transitive(xv.name@, o[b - 1].name@, o[a].name@);
                            }
                        } else {
                            assert(o2[a] == xv);
                            if b - 1 > q {
                                lemma_lt_total(o[q as int].name@, o[b - 1].name@);
                                if seq_lt(o[q as int].name@, o[b - 1].name@) {
                                    lemma_lt_transitive(o[b - 1].name@, xv.name@, o[q as int].name@);
                                    lemma_lt_transitive(o[q as int].name@, o[b - 1].name@, o[q as int].name@);
                                }
                                lemma_lt_transitive(o[b - 1].name@, xv.name@, o[q as int].name@);
                            } else {
                                lemma_lt_transitive(o[b - 1].name@, xv.name@, o[q as int].name@);
                            }
                            crate::text::lemma_lt_irreflexive(o[q as int].name@);
                        }
                    }
                }
            }
            let t0 = f.take(i as int);
            let t1 = f.take(i + 1);
            assert(t1 =~= t0.push(xv));
            assert forall|y: Tag| o2.contains(y) <==> t1.contains(y) by {
                if o2.contains(y) {
                    let w = choose|w: int| 0 <= w < o2.len() && o2[w] == y;
                    if w < q {
                        assert(o[w] == y);
                        assert(o.contains(y));
                        assert(t0.contains(y));
                        let z = choose|z: int| 0 <= z < t0.len() && t0[z] == y;
                        assert(t1[z] == y);
                    } else if w > q {
                        assert(o[w - 1] == y);
                        assert(o.contains(y));
                        assert(t0.contains(y));
                        let z = choose|z: int| 0 <= z < t0.len() && t0[z] == y;
                        assert(t1[z] == y);
                    } else {
                        assert(t1[i as int] == y);
                    }
                }
                if t1.contains(y) {
                    let z = choose|z: int| 0 <= z < t1.len() && t1[z] == y;
                    if z < i {
                        assert(t0[z] == y);
                        assert(o.contains(y));
                        let w = choose|w: int| 0 <= w < o.len() && o[w] == y;
                        if w < q {
                            assert(o2[w] == y);
                        } else {
                            assert(o2[w + 1] == y);
                        }
                    } else {
                        assert(o2[q as int] == y);
                    }
                }
            }
        }
        i += 1;
    }
    assert(f.take(n as int) =~= f);
    out
}

/// The counts stored for project `pid`, if any.
pub open spec fn counts_of(s: DbState, pid: Seq<char>) -> Option<CachedCounts> {
    if exists|k: int| 0 <= k < s.counts.len() && (#[trigger] s.counts[k]).0@ == pid {
        Some(s.counts[choose|k: int| 0 <= k < s.counts.len() && (#[trigger] s.counts[k]).0@ == pid].1)
    } else {
        None
    }
}

/// `t` is `s` with the counts of `pid` set to `c`: the row is replaced
/// when there is one, else a row is added.
pub open spec fn counts_upserted(s: Seq<(String, CachedCounts)>, t: Seq<(String, CachedCounts)>, pid: Seq<char>, c: CachedCounts) -> bool {
    if exists|k: int| 0 <= k < s.len() && (#[trigger] s[k]).0@ == pid {
        exists|k: int| 0 <= k < s.len() && (#[trigger] s[k]).0@ == pid && t == s.update(k, (s[k].0, c))
    } else {
        &&& t.len() == s.len() + 1
        &&& t.take(s.len() as int) == s
        &&& t.last().0@ == pid
        &&& t.last().1 == c
    }
}

/// `t` is `s` with a link of `pid` to `tid` added unless there is one.
pub open spec fn link_added(s: DbState, t: DbState, pid: Seq<char>, tid: Seq<char>) -> bool {
    &&& t.projects == s.projects
    &&& t.tags == s.tags
    &&& t.counts == s.counts
    &&& if has_link(s, pid, tid) {
        t.links == s.links
    } else {
        &&& t.links.len() == s.links.len() + 1
        &&& t.links.take(s.links.len() as int) == s.links
        &&& t.links.last().0@ == pid
        &&& t.links.last().1@ == tid
    }
}

impl Database {
    fn filter_projects(&self, include_archived: bool) -> (r: Vec<Project>)
        ensures
            r@ == keep(self@.projects, listed(include_archived)),
    {
        let mut r: Vec<Project> = Vec::new();
        let n = self.projects.len();
        let mut i: usize = 0;
        while i < n
            invariant
                n == self@.projects.len(),
                i <= n,
                r@ == keep(self@.projects.take(i as int), listed(include_archived)),
            decreases n - i,
        {
            let ghost t = self@.projects.take(i + 1);
            assert(t.drop_last() =~= self@.projects.take(i as int));
            assert(t.last() == self@.projects[i as int]);
            if include_archived || self.projects[i].archived_at.is_none() {
                r.push(self.projects[i].duplicate());
            }
            i += 1;
        }
        assert(self@.projects.take(n as int) =~= self@.projects);
        r
    }

    /// Gets projects, optionally including archived ones, most recently opened first.
    pub fn get_projects_filtered(&self, include_archived: bool) -> (r: Result<Vec<Project>, DbError>)
        ensures
            r matches Ok(v) && is_project_listing(self@, include_archived, v@),
    {
        let f = self.filter_projects(include_archived);
        Ok(sort_projects(f))
    }

    /// Gets all tags, by name.
    pub fn get_tags(&self) -> (r: Result<Vec<Tag>, DbError>)
        ensures
            r matches Ok(v) && is_all_tags_listing(self@, v@),
    {
        let mut all: Vec<Tag> = Vec::new();
        let n = self.tags.len();
        let mut i: usize = 0;
        while i < n
            invariant
                n == self@.tags.len(),
                i <= n,
                all@ == self@.tags.take(i as int),
            decreases n - i,
        {
            all.push(self.tags[i].duplicate());
            i += 1;
            assert(all@ =~= self@.tags.take(i as int));
        }
        assert(self@.tags.take(n as int) =~= self@.tags);
        Ok(sort_tags(all))
    }

    /// Whether project `pid` carries tag `tid`.
    fn link_exists(&self, pid: &str, tid: &str) -> (r: bool)
        ensures
            r == has_link(self@, pid@, tid@),
    {
        let n = self.project_tags.len();
        let mut i: usize = 0;
        while i < n
            invariant
                n == self@.links.len(),
                i <= n,
                forall|k: int| 0 <= k < i ==> !((#[trigger] self@.links[k]).0@ == pid@ && self@.links[k].1@ == tid@),
            decreases n - i,
        {
            if str_eq(self.project_tags[i].0.as_str(), pid) && str_eq(self.project_tags[i].1.as_str(), tid) {
                assert(self@.links[i as int].0@ == pid@ && self@.links[i as int].1@ == tid@);
                return true;
            }
            i += 1;
        }
        false
    }

    /// Gets the tags of project `project_id`, by name.
    pub fn get_project_tags(&self, project_id: &str) -> (r: Result<Vec<Tag>, DbError>)
        ensures
            r matches Ok(v) && is_tag_listing(self@, project_id@, v@),
    {
        let mut f: Vec<Tag> = Vec::new();
        let n = self.tags.len();
        let mut i: usize = 0;
        while i < n
            invariant
                n == self@.tags.len(),
                i <= n,
                f@ == keep(self@.tags.take(i as int), tag_of(self@, project_id@)),
            decreases n - i,
        {
            let ghost t = self@.tags.take(i + 1);
            assert(t.drop_last() =~= self@.tags.take(i as int));
            assert(t.last() == self@.tags[i as int]);
            if self.link_exists(project_id, self.tags[i].id.as_str()) {
                f.push(self.tags[i].duplicate());
            }
            i += 1;
        }
        assert(self@.tags.take(n as int) =~= self@.tags);
        Ok(sort_tags(f))
    }

    /// Gets projects with their tags, optionally including archived ones,
    /// most recently opened first.
    pub fn get_projects_with_tags_filtered(&self, include_archived: bool) -> (r: Result<
        Vec<ProjectWithTags>,
        DbError,
    >)
        ensures
            r matches Ok(v) && is_project_listing(
                self@,
                include_archived,
                v@.map_values(|p: ProjectWithTags| project_part(p)),
            ) && forall|k: int| 0 <= k < v@.len() ==> is_tag_listing(self@, (#[trigger] v@[k]).id@, v@[k].tags@),
    {
        let projects = match self.get_projects_filtered(include_archived) {
            Ok(v) => v,
            Err(e) => {
                return Err(e);
            },
        };
        let ghost ps = projects@;
        let mut result: Vec<ProjectWithTags> = Vec::new();
        let n = projects.len();
        let mut i: usize = 0;
        for project in it: projects.into_iter()
            invariant
                it.seq() == ps,
                n == ps.len(),
                i == it.index(),
                result@.len() == i,
                forall|k: int| 0 <= k < i ==> project_part(#[trigger] result@[k]) == ps[k],
                forall|k: int| 0 <= k < i ==> is_tag_listing(self@, (#[trigger] result@[k]).id@, result@[k].tags@),
        {
            assert(project == ps[i as int]);
            let tags = match self.get_project_tags(project.id.as_str()) {
                Ok(t) => t,
                Err(e) => {
                    return Err(e);
                },
            };
            result.push(ProjectWithTags::from_project(project, tags));
            i += 1;
        }
        assert(result@.map_values(|p: ProjectWithTags| project_part(p)) =~= ps);
        Ok(result)
    }

    /// Looks up a project by its path, matching both the path as given and
    /// its variant with `/` replaced by `\`.
    pub fn get_project_by_path(&self, path: &str) -> (r: Result<Option<Project>, DbError>)
        ensures
            match r {
                Ok(Some(p)) => exists|k: int|
                    0 <= k < self@.projects.len() && #[trigger] self@.projects[k] == p && (p.path@ == path@
                        || p.path@ == replace_char_spec(path@, '/', '\\')) && forall|j: int|
                        0 <= j < k ==> (#[trigger] self@.projects[j]).path@ != path@
                            && self@.projects[j].path@ != replace_char_spec(path@, '/', '\\'),
                Ok(None) => forall|k: int|
                    0 <= k < self@.projects.len() ==> (#[trigger] self@.projects[k]).path@ != path@
                        && self@.projects[k].path@ != replace_char_spec(path@, '/', '\\'),
                Err(_) => false,
            },
    {
        let alt = replace_char(path, '/', '\\');
        let n = self.projects.len();
        let mut i: usize = 0;
        while i < n
            invariant
                n == self@.projects.len(),
                i <= n,
                alt@ == replace_char_spec(path@, '/', '\\'),
                forall|k: int|
                    0 <= k < i ==> (#[trigger] self@.projects[k]).path@ != path@ && self@.projects[k].path@ != alt@,
            decreases n - i,
        {
            if str_eq(self.projects[i].path.as_str(), path) || str_eq(self.projects[i].path.as_str(), alt.as_str()) {
                let p = self.projects[i].duplicate();
                assert(self@.projects[i as int] == p);
                return Ok(Some(p));
            }
            i += 1;
        }
        Ok(None)
    }

    /// Reads the cached bead counts of project `project_id`.
    pub fn get_cached_counts(&self, project_id: &str) -> (r: Result<Option<CachedCounts>, DbError>)
        requires
            self.wf(),
        ensures
            r == Ok::<Option<CachedCounts>, DbError>(counts_of(self@, project_id@)),
    {
        let n = self.bead_counts.len();
        let mut i: usize = 0;
        while i < n
            invariant
                n == self@.counts.len(),
                self.wf(),
                i <= n,
                forall|k: int| 0 <= k < i ==> (#[trigger] self@.counts[k]).0@ != project_id@,
            decreases n - i,
        {
            if str_eq(self.bead_counts[i].0.as_str(), project_id) {
                proof {
                    let s = self@;
                    let c = choose|k: int| 0 <= k < s.counts.len() && (#[trigger] s.counts[k]).0@ == project_id@;
                    if c != i {
                        if c < i {
                            assert(s.counts[c].0@ != s.counts[i as int].0@);
                        } else {
                            assert(s.counts[i as int].0@ != s.counts[c].0@);
                        }
                    }
                }
                return Ok(Some(self.bead_counts[i].1.duplicate()));
            }
            i += 1;
        }
        Ok(None)
    }

    /// Inserts or replaces the cached bead counts of project `project_id`.
    pub fn upsert_cached_counts(&mut self, project_id: &str, counts: &CachedCounts) -> (r: Result<
        (),
        DbError,
    >)
        requires
            old(self).wf(),
        ensures
            final(self).wf(),
            match r {
                Ok(()) => {
                    &&& has_project(old(self)@, project_id@)
                    &&& final(self)@.projects == old(self)@.projects
                    &&& final(self)@.tags == old(self)@.tags
                    &&& final(self)@.links == old(self)@.links
                    &&& counts_upserted(old(self)@.counts, final(self)@.counts, project_id@, *counts)
                },
                Err(e) => !has_project(old(self)@, project_id@) && is_sqlite_error(
                    e,
                    "FOREIGN KEY constraint failed"@,
                ) && final(self)@ == old(self)@,
            },
    {
        let pk = match self.project_index(project_id) {
            Some(pk) => pk,
            None => {
                return Err(Self::error_message("FOREIGN KEY constraint failed"));
            },
        };
        let ghost s = self@;
        let n = self.bead_counts.len();
        let mut i: usize = 0;
        while i < n
            invariant
                n == self@.counts.len(),
                s == self@,
                s == old(self)@,
                wf_state(s),
                pk < s.projects.len(),
                s.projects[pk as int].id@ == project_id@,
                i <= n,
                forall|k: int| 0 <= k < i ==> (#[trigger] self@.counts[k]).0@ != project_id@,
            decreases n - i,
        {
            if str_eq(self.bead_counts[i].0.as_str(), project_id) {
                proof {
                    let c = choose|k: int| 0 <= k < s.counts.len() && (#[trigger] s.counts[k]).0@ == project_id@;
                    if c != i {
                        if c < i {
                            assert(s.counts[c].0@ != s.counts[i as int].0@);
                        } else {
                            assert(s.counts[i as int].0@ != s.counts[c].0@);
                        }
                    }
                }
                let key = self.bead_counts[i].0.clone();
                self.bead_counts.set(i, (key, counts.duplicate()));
                proof {
                    let t = self@;
                    assert(t.counts =~= s.counts.update(i as int, (s.counts[i as int].0, *counts)));
                    assert(t.links == s.links);
                    assert(s.counts[i as int].0@ == project_id@);
                    let c = choose|k: int| 0 <= k < s.counts.len() && (#[trigger] s.counts[k]).0@ == project_id@;
                    assert(c == i);
                    assert(has_project(s, project_id@));
                    assert(counts_upserted(s.counts, t.counts, project_id@, *counts));
                    assert(t.projects == s.projects);
                    assert(t.tags == s.tags);
                    assert forall|a: int| 0 <= a < t.counts.len() implies has_project(t, (#[trigger] t.counts[a]).0@) by {
                        assert(t.counts[a].0 == s.counts[a].0);
                        assert(has_project(s, s.counts[a].0@));
                        assert(t.projects == s.projects);
                        let q = choose|q: int| 0 <= q < s.projects.len() && (#[trigger] s.projects[q]).id@ == s.counts[a].0@;
                        assert(t.projects[q] == s.projects[q]);
                    }
                    assert forall|a: int, b: int| 0 <= a < b < t.counts.len() implies (#[trigger] t.counts[a]).0@ != (
                    #[trigger] t.counts[b]).0@ by {
                        assert(t.counts[a].0 == s.counts[a].0 && t.counts[b].0 == s.counts[b].0);
                    }
                    assert forall|a: int| 0 <= a < t.counts.len() implies has_project(s, (#[trigger] t.counts[a]).0@) by {
                        assert(t.counts[a].0 == s.counts[a].0);
                    }
                    assert forall|a: int| 0 <= a < t.links.len() implies has_project(s, (#[trigger] t.links[a]).0@)
                        && has_tag(s, t.links[a].1@) by {
                        assert(t.links[a] == s.links[a]);
                    }
                    lemma_wf_refs_changed(s, t);
                }
                return Ok(());
            }
            i += 1;
        }
        self.bead_counts.push((String::from_str(project_id), counts.duplicate()));
        proof {
            let t = self@;
            assert(t.counts.take(s.counts.len() as int) =~= s.counts);
            assert(t.links == s.links);
            assert forall|a: int| 0 <= a < t.counts.len() implies has_project(t, (#[trigger] t.counts[a]).0@) by {
                if a < n {
                    assert(t.counts[a] == s.counts[a]);
                    assert(has_project(s, s.counts[a].0@));
                    let q = choose|q: int| 0 <= q < s.projects.len() && (#[trigger] s.projects[q]).id@ == s.counts[a].0@;
                    assert(t.projects[q] == s.projects[q]);
                } else {
                    assert(t.projects[pk as int].id@ == project_id@);
                }
            }
            assert forall|a: int, b: int| 0 <= a < b < t.counts.len() implies (#[trigger] t.counts[a]).0@ != (
            #[trigger] t.counts[b]).0@ by {
                assert(t.counts[a] == s.counts[a]);
                if b < n {
                    assert(t.counts[b] == s.counts[b]);
                }
            }
            assert forall|a: int| 0 <= a < t.counts.len() implies has_project(s, (#[trigger] t.counts[a]).0@) by {
                if a < n {
                    assert(t.counts[a] == s.counts[a]);
                } else {
                    assert(s.projects[pk as int].id@ == project_id@);
                }
            }
            assert forall|a: int| 0 <= a < t.links.len() implies has_project(s, (#[trigger] t.links[a]).0@)
                && has_tag(s, t.links[a].1@) by {
                assert(t.links[a] == s.links[a]);
            }
            lemma_wf_refs_changed(s, t);
        }
        Ok(())
    }

    /// Creates a tag with the given id.
    pub fn create_tag_with(&mut self, input: CreateTagInput, id: String) -> (r: Result<Tag, DbError>)
        requires
            old(self).wf(),
        ensures
            final(self).wf(),
            create_tag_outcome(old(self)@, final(self)@, input, id, r),
    {
        if self.tag_index(id.as_str()).is_some() {
            return Err(Self::error_message("UNIQUE constraint failed: tags.id"));
        }
        let tag = Tag { id, name: input.name, color: input.color };
        let ghost s = self@;
        let n = self.tags.len();
        self.tags.push(tag.duplicate());
        proof {
            let t = self@;
            assert forall|a: int, b: int| 0 <= a < b < t.tags.len() implies (#[trigger] t.tags[a]).id@ != (
            #[trigger] t.tags[b]).id@ by {
                assert(t.tags[a] == s.tags[a]);
                if b < n {
                    assert(t.tags[b] == s.tags[b]);
                }
            }
            assert(t.projects == s.projects && t.links == s.links && t.counts == s.counts);
            assert forall|x: Seq<char>| has_project(s, x) implies has_project(t, x) by {
                let q = choose|q: int| 0 <= q < s.projects.len() && (#[trigger] s.projects[q]).id@ == x;
                assert(t.projects[q] == s.projects[q]);
            }
            assert forall|a: int| 0 <= a < t.links.len() implies has_project(t, (#[trigger] t.links[a]).0@)
                && has_tag(t, t.links[a].1@) by {
                assert(has_project(s, s.links[a].0@));
                assert(has_tag(s, s.links[a].1@));
                let q = choose|q: int| 0 <= q < s.tags.len() && (#[trigger] s.tags[q]).id@ == s.links[a].1@;
                assert(t.tags[q] == s.tags[q]);
            }
            assert forall|a: int| 0 <= a < t.counts.len() implies has_project(t, (#[trigger] t.counts[a]).0@) by {
                assert(has_project(s, s.counts[a].0@));
            }
        }
        Ok(tag)
    }

    /// Adds tag `tag_id` to project `project_id` (nothing changes when the
    /// project already carries it).
    pub fn add_tag_to_project(&mut self, project_id: &str, tag_id: &str) -> (r: Result<(), DbError>)
        requires
            old(self).wf(),
        ensures
            final(self).wf(),
            match r {
                Ok(()) => has_project(old(self)@, project_id@) && has_tag(old(self)@, tag_id@) && link_added(
                    old(self)@,
                    final(self)@,
                    project_id@,
                    tag_id@,
                ),
                Err(e) => final(self)@ == old(self)@ && if !has_project(old(self)@, project_id@) {
                    is_project_not_found(e, project_id@)
                } else {
                    !has_tag(old(self)@, tag_id@) && is_tag_not_found(e, tag_id@)
                },
            },
    {
        let pk = match self.project_index(project_id) {
            Some(pk) => pk,
            None => {
                return Err(DbError::ProjectNotFound(String::from_str(project_id)));
            },
        };
        let tk = match self.tag_index(tag_id) {
            Some(tk) => tk,
            None => {
                return Err(DbError::TagNotFound(String::from_str(tag_id)));
            },
        };
        if self.link_exists(project_id, tag_id) {
            return Ok(());
        }
        let ghost s = self@;
        let n = self.project_tags.len();
        self.project_tags.push((String::from_str(project_id), String::from_str(tag_id)));
        proof {
            let t = self@;
            assert(t.links.take(n as int) =~= s.links);
            assert(t.counts == s.counts);
            assert forall|a: int| 0 <= a < t.links.len() implies has_project(t, (#[trigger] t.links[a]).0@)
                && has_tag(t, t.links[a].1@) by {
                if a < n {
                    assert(t.links[a] == s.links[a]);
                    assert(has_project(s, s.links[a].0@));
                    assert(has_tag(s, s.links[a].1@));
                    let q = choose|q: int| 0 <= q < s.projects.len() && (#[trigger] s.projects[q]).id@ == s.links[a].0@;
                    assert(t.projects[q] == s.projects[q]);
                    let q2 = choose|q2: int| 0 <= q2 < s.tags.len() && (#[trigger] s.tags[q2]).id@ == s.links[a].1@;
                    assert(t.tags[q2] == s.tags[q2]);
                } else {
                    assert(t.projects[pk as int].id@ == project_id@);
                    assert(t.tags[tk as int].id@ == tag_id@);
                }
            }
            assert forall|a: int, b: int|
                0 <= a < b < t.links.len() implies !((#[trigger] t.links[a]).0@ == (#[trigger] t.links[b]).0@
                && t.links[a].1@ == t.links[b].1@) by {
                assert(t.links[a] == s.links[a]);
                if b < n {
                    assert(t.links[b] == s.links[b]);
                }
            }
            assert forall|a: int| 0 <= a < t.links.len() implies has_project(s, (#[trigger] t.links[a]).0@)
                && has_tag(s, t.links[a].1@) by {
                if a < n {
                    assert(t.links[a] == s.links[a]);
                } else {
                    assert(s.projects[pk as int].id@ == project_id@);
                    assert(s.tags[tk as int].id@ == tag_id@);
                }
            }
            assert forall|a: int| 0 <= a < t.counts.len() implies has_project(s, (#[trigger] t.counts[a]).0@) by {
                assert(t.counts[a] == s.counts[a]);
            }
            lemma_wf_refs_changed(s, t);
        }
        Ok(())
    }
}


// ===== Operations that draw a new id or read the clock =====

impl Database {
    /// Creates a project with a new random id, opened and created now.
    pub fn create_project(&mut self, input: CreateProjectInput) -> (r: Result<Project, DbError>)
        requires
            old(self).wf(),
        ensures
            final(self).wf(),
            exists|id: String, now: String|
                is_hyphenated_uuid(id@) && is_rfc3339_utc(now@) && create_project_outcome(old(self)@, final(self)@, input, id, now, r),
    {
        let id = new_uuid();
        let now = now_rfc3339();
        let ghost (gid, gnow) = (id, now);
        let r = self.create_project_with(input, id, now);
        assert(create_project_outcome(old(self)@, self@, input, gid, gnow, r));
        r
    }

    /// Updates the given fields of project `id` and sets `last_opened` to now.
    pub fn update_project(&mut self, id: &str, input: UpdateProjectInput) -> (r: Result<Project, DbError>)
        requires
            old(self).wf(),
        ensures
            final(self).wf(),
            exists|now: String| is_rfc3339_utc(now@) && update_project_outcome(old(self)@, final(self)@, id@, input, now, r),
    {
        let now = now_rfc3339();
        let ghost gnow = now;
        let r = self.update_project_with(id, input, now);
        assert(update_project_outcome(old(self)@, self@, id@, input, gnow, r));
        r
    }

    /// Sets `last_opened` of project `id` to now, touching no other field.
    pub fn touch_project(&mut self, id: &str) -> (r: Result<(), DbError>)
        requires
            old(self).wf(),
        ensures
            final(self).wf(),
            exists|now: String| is_rfc3339_utc(now@) && touch_outcome(old(self)@, final(self)@, id@, now, r),
    {
        let now = now_rfc3339();
        let ghost gnow = now;
        let r = self.touch_project_at(id, now);
        assert(touch_outcome(old(self)@, self@, id@, gnow, r));
        r
    }

    /// Archives project `id`: sets `archived_at` to now.
    pub fn archive_project(&mut self, id: &str) -> (r: Result<(), DbError>)
        requires
            old(self).wf(),
        ensures
            final(self).wf(),
            exists|now: String| is_rfc3339_utc(now@) && archive_outcome(old(self)@, final(self)@, id@, now, r),
    {
        let now = now_rfc3339();
        let ghost gnow = now;
        let r = self.archive_project_at(id, now);
        assert(archive_outcome(old(self)@, self@, id@, gnow, r));
        r
    }

    /// Creates a tag with a new random id.
    pub fn create_tag(&mut self, input: CreateTagInput) -> (r: Result<Tag, DbError>)
        requires
            old(self).wf(),
        ensures
            final(self).wf(),
            exists|id: String| is_hyphenated_uuid(id@) && create_tag_outcome(old(self)@, final(self)@, input, id, r),
    {
        let id = new_uuid();
        let ghost gid = id;
        let r = self.create_tag_with(input, id);
        assert(create_tag_outcome(old(self)@, self@, input, gid, r));
        r
    }
}

// ===== Rows: saving and restoring the store =====

/// The ids of the projects, in order.
fn project_ids(v: &Vec<Project>) -> (r: Vec<String>)
    ensures
        r@.len() == v@.len(),
        forall|k: int| 0 <= k < v@.len() ==> (#[trigger] r@[k])@ == v@[k].id@,
{
    let mut r: Vec<String> = Vec::new();
    let mut i: usize = 0;
    while i < v.len()
        invariant
            i <= v@.len(),
            r@.len() == i,
            forall|k: int| 0 <= k < i ==> (#[trigger] r@[k])@ == v@[k].id@,
        decreases v@.len() - i,
    {
        r.push(v[i].id.clone());
        i += 1;
    }
    r
}

/// The paths of the projects, in order.
fn project_paths(v: &Vec<Project>) -> (r: Vec<String>)
    ensures
        r@.len() == v@.len(),
        forall|k: int| 0 <= k < v@.len() ==> (#[trigger] r@[k])@ == v@[k].path@,
{
    let mut r: Vec<String> = Vec::new();
    let mut i: usize = 0;
    while i < v.len()
        invariant
            i <= v@.len(),
            r@.len() == i,
            forall|k: int| 0 <= k < i ==> (#[trigger] r@[k])@ == v@[k].path@,
        decreases v@.len() - i,
    {
        r.push(v[i].path.clone());
        i += 1;
    }
    r
}

/// The ids of the tags, in order.
fn tag_ids(v: &Vec<Tag>) -> (r: Vec<String>)
    ensures
        r@.len() == v@.len(),
        forall|k: int| 0 <= k < v@.len() ==> (#[trigger] r@[k])@ == v@[k].id@,
{
    let mut r: Vec<String> = Vec::new();
    let mut i: usize = 0;
    while i < v.len()
        invariant
            i <= v@.len(),
            r@.len() == i,
            forall|k: int| 0 <= k < i ==> (#[trigger] r@[k])@ == v@[k].id@,
        decreases v@.len() - i,
    {
        r.push(v[i].id.clone());
        i += 1;
    }
    r
}

/// No two of the keys are equal.
fn all_distinct(keys: &Vec<String>) -> (r: bool)
    ensures
        r == forall|i: int, j: int| 0 <= i < j < keys@.len() ==> (#[trigger] keys@[i])@ != (#[trigger] keys@[j])@,
{
    let n = keys.len();
    let mut j: usize = 0;
    while j < n
        invariant
            n == keys@.len(),
            j <= n,
            forall|a: int, b: int| 0 <= a < b < j ==> (#[trigger] keys@[a])@ != (#[trigger] keys@[b])@,
        decreases n - j,
    {
        let mut i: usize = 0;
        while i < j
            invariant
                n == keys@.len(),
                i <= j < n,
                forall|a: int, b: int| 0 <= a < b < j ==> (#[trigger] keys@[a])@ != (#[trigger] keys@[b])@,
                forall|a: int| 0 <= a < i ==> (#[trigger] keys@[a])@ != keys@[j as int]@,
            decreases j - i,
        {
            if str_eq(keys[i].as_str(), keys[j].as_str()) {
                return false;
            }
            i += 1;
        }
        j += 1;
    }
    true
}

/// No two of the pairs are equal.
fn pairs_distinct(v: &Vec<(String, String)>) -> (r: bool)
    ensures
        r == forall|i: int, j: int|
            0 <= i < j < v@.len() ==> !((#[trigger] v@[i]).0@ == (#[trigger] v@[j]).0@ && v@[i].1@ == v@[j].1@),
{
    let n = v.len();
    let mut j: usize = 0;
    while j < n
        invariant
            n == v@.len(),
            j <= n,
            forall|a: int, b: int|
                0 <= a < b < j ==> !((#[trigger] v@[a]).0@ == (#[trigger] v@[b]).0@ && v@[a].1@ == v@[b].1@),
        decreases n - j,
    {
        let mut i: usize = 0;
        while i < j
            invariant
                n == v@.len(),
                i <= j < n,
                forall|a: int, b: int|
                    0 <= a < b < j ==> !((#[trigger] v@[a]).0@ == (#[trigger] v@[b]).0@ && v@[a].1@ == v@[b].1@),
                forall|a: int| 0 <= a < i ==> !((#[trigger] v@[a]).0@ == v@[j as int].0@ && v@[a].1@ == v@[j as int].1@),
            decreases j - i,
        {
            if str_eq(v[i].0.as_str(), v[j].0.as_str()) && str_eq(v[i].1.as_str(), v[j].1.as_str()) {
                return false;
            }
            i += 1;
        }
        j += 1;
    }
    true
}

/// No two counts rows are of the same project.
fn count_keys_distinct(v: &Vec<(String, CachedCounts)>) -> (r: bool)
    ensures
        r == forall|i: int, j: int| 0 <= i < j < v@.len() ==> (#[trigger] v@[i]).0@ != (#[trigger] v@[j]).0@,
{
    let n = v.len();
    let mut j: usize = 0;
    while j < n
        invariant
            n == v@.len(),
            j <= n,
            forall|a: int, b: int| 0 <= a < b < j ==> (#[trigger] v@[a]).0@ != (#[trigger] v@[b]).0@,
        decreases n - j,
    {
        let mut i: usize = 0;
        while i < j
            invariant
                n == v@.len(),
                i <= j < n,
                forall|a: int, b: int| 0 <= a < b < j ==> (#[trigger] v@[a]).0@ != (#[trigger] v@[b]).0@,
                forall|a: int| 0 <= a < i ==> (#[trigger] v@[a]).0@ != v@[j as int].0@,
            decreases j - i,
        {
            if str_eq(v[i].0.as_str(), v[j].0.as_str()) {
                return false;
            }
            i += 1;
        }
        j += 1;
    }
    true
}

impl Database {
    /// Whether every link points to a stored project and tag.
    fn links_resolve(&self) -> (r: bool)
        ensures
            r == forall|i: int|
                0 <= i < self@.links.len() ==> has_project(self@, (#[trigger] self@.links[i]).0@) && has_tag(
                    self@,
                    self@.links[i].1@,
                ),
    {
        let n = self.project_tags.len();
        let mut i: usize = 0;
        while i < n
            invariant
                n == self@.links.len(),
                i <= n,
                forall|a: int|
                    0 <= a < i ==> has_project(self@, (#[trigger] self@.links[a]).0@) && has_tag(
                        self@,
                        self@.links[a].1@,
                    ),
            decreases n - i,
        {
            if self.project_index(self.project_tags[i].0.as_str()).is_none() || self.tag_index(
                self.project_tags[i].1.as_str(),
            ).is_none() {
                return false;
            }
            i += 1;
        }
        true
    }

    /// Whether every counts row is of a stored project.
    fn counts_resolve(&self) -> (r: bool)
        ensures
            r == forall|i: int| 0 <= i < self@.counts.len() ==> has_project(self@, (#[trigger] self@.counts[i]).0@),
    {
        let n = self.bead_counts.len();
        let mut i: usize = 0;
        while i < n
            invariant
                n == self@.counts.len(),
                i <= n,
                forall|a: int| 0 <= a < i ==> has_project(self@, (#[trigger] self@.counts[a]).0@),
            decreases n - i,
        {
            if self.project_index(self.bead_counts[i].0.as_str()).is_none() {
                return false;
            }
            i += 1;
        }
        true
    }

    /// A store holding exactly the given rows, refused when they break the
    /// schema's constraints (duplicate ids or paths, duplicate links, links
    /// or counts of missing projects or tags).
    pub fn from_rows(
        projects: Vec<Project>,
        tags: Vec<Tag>,
        links: Vec<(String, String)>,
        counts: Vec<(String, CachedCounts)>,
    ) -> (r: Result<Database, DbError>)
        ensures
            match r {
                Ok(db) => db.wf() && db@ == DbState {
                    projects: projects@,
                    tags: tags@,
                    links: links@,
                    counts: counts@,
                },
                Err(e) => !wf_state(
                    DbState { projects: projects@, tags: tags@, links: links@, counts: counts@ },
                ) && is_sqlite_error(e, "constraint failed"@),
            },
    {
        let pids = project_ids(&projects);
        let paths = project_paths(&projects);
        let tids = tag_ids(&tags);
        let ok_projects = all_distinct(&pids) && all_distinct(&paths);
        let ok_tags = all_distinct(&tids);
        let ok_links = pairs_distinct(&links);
        let ok_counts = count_keys_distinct(&counts);
        let db = Database { projects, tags, project_tags: links, bead_counts: counts };
        let ok_refs = db.links_resolve() && db.counts_resolve();
        let ghost s = db@;
        proof {
            let ids_ok = forall|i: int, j: int|
                0 <= i < j < s.projects.len() ==> (#[trigger] s.projects[i]).id@ != (#[trigger] s.projects[j]).id@
                    && s.projects[i].path@ != s.projects[j].path@;
            if ok_projects {
                assert forall|i: int, j: int| 0 <= i < j < s.projects.len() implies (#[trigger] s.projects[i]).id@
                    != (#[trigger] s.projects[j]).id@ && s.projects[i].path@ != s.projects[j].path@ by {
                    assert(pids@[i]@ != pids@[j]@);
                    assert(paths@[i]@ != paths@[j]@);
                }
            } else if ids_ok {
                assert forall|i: int, j: int| 0 <= i < j < pids@.len() implies (#[trigger] pids@[i])@ != (
                #[trigger] pids@[j])@ by {
                    assert(s.projects[i].id@ != s.projects[j].id@);
                }
                assert forall|i: int, j: int| 0 <= i < j < paths@.len() implies (#[trigger] paths@[i])@ != (
                #[trigger] paths@[j])@ by {
                    assert(s.projects[i].path@ != s.projects[j].path@);
                }
            }
            if ok_tags {
                assert forall|i: int, j: int| 0 <= i < j < s.tags.len() implies (#[trigger] s.tags[i]).id@ != (
                #[trigger] s.tags[j]).id@ by {
                    assert(tids@[i]@ != tids@[j]@);
                }
            } else {
                let i = choose|i: int, j: int| 0 <= i < j < tids@.len() && (#[trigger] tids@[i])@ == (#[trigger] tids@[j])@;
                let (a, b) = i;
                assert(s.tags[a].id@ == s.tags[b].id@);
            }
        }
        if ok_projects && ok_tags && ok_links && ok_counts && ok_refs {
            Ok(db)
        } else {
            Err(DbError::Sqlite(String::from_str("constraint failed")))
        }
    }

    /// The rows of the store, table by table.
    pub fn rows(&self) -> (r: (Vec<Project>, Vec<Tag>, Vec<(String, String)>, Vec<(String, CachedCounts)>))
        ensures
            r.0@ == self@.projects,
            r.1@ == self@.tags,
            r.2@ == self@.links,
            r.3@ == self@.counts,
    {
        let mut ps: Vec<Project> = Vec::new();
        let mut i: usize = 0;
        while i < self.projects.len()
            invariant
                i <= self@.projects.len(),
                ps@ == self@.projects.take(i as int),
            decreases self@.projects.len() - i,
        {
            ps.push(self.projects[i].duplicate());
            i += 1;
            assert(ps@ =~= self@.projects.take(i as int));
        }
        let mut ts: Vec<Tag> = Vec::new();
        let mut i: usize = 0;
        while i < self.tags.len()
            invariant
                i <= self@.tags.len(),
                ts@ == self@.tags.take(i as int),
            decreases self@.tags.len() - i,
        {
            ts.push(self.tags[i].duplicate());
            i += 1;
            assert(ts@ =~= self@.tags.take(i as int));
        }
        let mut ls: Vec<(String, String)> = Vec::new();
        let mut i: usize = 0;
        while i < self.project_tags.len()
            invariant
                i <= self@.links.len(),
                ls@ == self@.links.take(i as int),
            decreases self@.links.len() - i,
        {
            ls.push((self.project_tags[i].0.clone(), self.project_tags[i].1.clone()));
            i += 1;
            assert(ls@ =~= self@.links.take(i as int));
        }
        let mut cs: Vec<(String, CachedCounts)> = Vec::new();
        let mut i: usize = 0;
        while i < self.bead_counts.len()
            invariant
                i <= self@.counts.len(),
                cs@ == self@.counts.take(i as int),
            decreases self@.counts.len() - i,
        {
            cs.push((self.bead_counts[i].0.clone(), self.bead_counts[i].1.duplicate()));
            i += 1;
            assert(cs@ =~= self@.counts.take(i as int));
        }
        assert(ps@ =~= self@.projects);
        assert(ts@ =~= self@.tags);
        assert(ls@ =~= self@.links);
        assert(cs@ =~= self@.counts);
        (ps, ts, ls, cs)
    }
}

// ===== Schema migrations =====

/// The migrations of the on-disk schema, by version.
pub open spec fn migrations_spec() -> Seq<(i64, Seq<char>)> {
    seq![
        (1i64, "ALTER TABLE projects ADD COLUMN local_path TEXT"@),
        (2i64, "ALTER TABLE projects ADD COLUMN archived_at TEXT"@),
        (3i64, "CREATE TABLE IF NOT EXISTS project_bead_counts (\n                    project_id TEXT PRIMARY KEY REFERENCES projects(id) ON DELETE CASCADE,\n                    open INTEGER NOT NULL DEFAULT 0,\n                    in_progress INTEGER NOT NULL DEFAULT 0,\n                    inreview INTEGER NOT NULL DEFAULT 0,\n                    closed INTEGER NOT NULL DEFAULT 0,\n                    data_source TEXT,\n                    updated_at TEXT NOT NULL\n                )"@),
    ]
}

/// The migrations still to run on a schema at version `current`, in order.
pub fn pending_migrations(current: i64) -> (r: Vec<(i64, &'static str)>)
    ensures
        r@.map_values(|m: (i64, &'static str)| (m.0, m.1@)) == keep(
            migrations_spec(),
            |m: (i64, Seq<char>)| m.0 > current,
        ),
{
    let all: [(i64, &'static str); 3] = [
        (1, "ALTER TABLE projects ADD COLUMN local_path TEXT"),
        (2, "ALTER TABLE projects ADD COLUMN archived_at TEXT"),
        (3, "CREATE TABLE IF NOT EXISTS project_bead_counts (\n                    project_id TEXT PRIMARY KEY REFERENCES projects(id) ON DELETE CASCADE,\n                    open INTEGER NOT NULL DEFAULT 0,\n                    in_progress INTEGER NOT NULL DEFAULT 0,\n                    inreview INTEGER NOT NULL DEFAULT 0,\n                    closed INTEGER NOT NULL DEFAULT 0,\n                    data_source TEXT,\n                    updated_at TEXT NOT NULL\n                )"),
    ];
    let ghost spec = migrations_spec();
    let ghost f = |m: (i64, Seq<char>)| m.0 > current;
    assert(all@.map_values(|m: (i64, &'static str)| (m.0, m.1@)) =~= spec);
    let mut r: Vec<(i64, &'static str)> = Vec::new();
    let mut i: usize = 0;
    while i < 3
        invariant
            i <= 3,
            all@.map_values(|m: (i64, &'static str)| (m.0, m.1@)) == spec,
            spec.len() == 3,
            r@.map_values(|m: (i64, &'static str)| (m.0, m.1@)) == keep(spec.take(i as int), f),
            f == (|m: (i64, Seq<char>)| m.0 > current),
        decreases 3 - i,
    {
        let ghost t = spec.take(i + 1);
        assert(t.drop_last() =~= spec.take(i as int));
        assert(t.last() == spec[i as int]);
        assert(spec[i as int] == (all@[i as int].0, all@[i as int].1@));
        let ghost before = r@;
        if all[i].0 > current {
            r.push(all[i]);
            assert(r@.map_values(|m: (i64, &'static str)| (m.0, m.1@)) =~= before.map_values(
                |m: (i64, &'static str)| (m.0, m.1@),
            ).push(spec[i as int]));
        } else {
            assert(r@ == before);
        }
        i += 1;
    }
    assert(spec.take(3) =~= spec);
    r
}

} // verus!
