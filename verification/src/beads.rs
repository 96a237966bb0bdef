//! Beads (issues) as read from the `bd` CLI, its JSONL export or Dolt, and
//! the request shapes of the beads endpoints.

use vstd::prelude::*;

verus! {

// ===== Views of strings in containers =====

/// The character views of a sequence of strings.
pub open spec fn str_views(v: Seq<String>) -> Seq<Seq<char>> {
    v.map_values(|s: String| s@)
}

/// The character view of an optional string.
pub open spec fn opt_view(o: Option<String>) -> Option<Seq<char>> {
    match o {
        Some(s) => Some(s@),
        None => None,
    }
}

/// The character views of an optional vector of strings.
pub open spec fn opt_views(o: Option<Vec<String>>) -> Option<Seq<Seq<char>>> {
    match o {
        Some(v) => Some(str_views(v@)),
        None => None,
    }
}

/// A copy of a vector of strings.
pub fn clone_strings(v: &Vec<String>) -> (r: Vec<String>)
    ensures
        r@ == v@,
{
    let mut r: Vec<String> = Vec::new();
    let n = v.len();
    let mut i: usize = 0;
    while i < n
        invariant
            n == v@.len(),
            i <= n,
            r@ == v@.take(i as int),
        decreases n - i,
    {
        r.push(v[i].clone());
        i += 1;
        assert(r@ =~= v@.take(i as int));
    }
    assert(v@.take(n as int) =~= v@);
    r
}

/// A copy of an optional string.
pub fn clone_opt_string(o: &Option<String>) -> (r: Option<String>)
    ensures
        r == *o,
{
    match o {
        Some(s) => Some(s.clone()),
        None => None,
    }
}

/// Whether `v` holds a string equal to `x`.
pub fn contains_string(v: &Vec<String>, x: &str) -> (r: bool)
    ensures
        r == str_views(v@).contains(x@),
{
    let n = v.len();
    let mut i: usize = 0;
    while i < n
        invariant
            n == v@.len(),
            i <= n,
            forall|j: int| 0 <= j < i ==> v@[j]@ != x@,
        decreases n - i,
    {
        if crate::text::str_eq(v[i].as_str(), x) {
            assert(str_views(v@)[i as int] == x@);
            return true;
        }
        i += 1;
    }
    assert forall|j: int| 0 <= j < str_views(v@).len() implies str_views(v@)[j] != x@ by {
        assert(str_views(v@)[j] == v@[j]@);
    }
    false
}

// ===== Beads =====

/// A comment on a bead.
#[derive(Debug)]
pub struct Comment {
    pub id: String,
    pub issue_id: String,
    pub author: String,
    pub text: String,
    pub created_at: String,
}

impl Comment {
    /// A copy of this comment.
    pub fn duplicate(&self) -> (r: Comment)
        ensures
            r == *self,
    {
        Comment {
            id: self.id.clone(),
            issue_id: self.issue_id.clone(),
            author: self.author.clone(),
            text: self.text.clone(),
            created_at: self.created_at.clone(),
        }
    }
}

/// A copy of an optional list of comments.
pub fn clone_comments(o: &Option<Vec<Comment>>) -> (r: Option<Vec<Comment>>)
    ensures
        match (r, *o) {
            (Some(a), Some(b)) => a@ == b@,
            (None, None) => true,
            _ => false,
        },
{
    match o {
        None => None,
        Some(v) => {
            let mut r: Vec<Comment> = Vec::new();
            let n = v.len();
            let mut i: usize = 0;
            while i < n
                invariant
                    n == v@.len(),
                    i <= n,
                    r@ == v@.take(i as int),
                decreases n - i,
            {
                r.push(v[i].duplicate());
                i += 1;
                assert(r@ =~= v@.take(i as int));
            }
            assert(v@.take(n as int) =~= v@);
            Some(r)
        },
    }
}

/// A dependency relationship in the old JSONL format:
/// `{"depends_on_id": "parent-1", "type": "parent-child"}`.
#[derive(Debug)]
pub struct LegacyDependency {
    pub depends_on_id: String,
    pub dep_type: String,
}

/// Dependencies in either the old or the new format.
#[derive(Debug)]
pub enum RawDependencies {
    /// Old format: array of `{depends_on_id, type}` objects
    Legacy(Vec<LegacyDependency>),
    /// New format: flat array of string IDs (blocking deps)
    StringIds(Vec<String>),
}

/// A single bead/issue.
#[derive(Debug)]
pub struct Bead {
    pub id: String,
    pub title: String,
    pub description: Option<String>,
    pub status: String,
    pub priority: Option<i32>,
    pub issue_type: Option<String>,
    pub owner: Option<String>,
    pub created_at: Option<String>,
    pub created_by: Option<String>,
    pub updated_at: Option<String>,
    pub closed_at: Option<String>,
    pub close_reason: Option<String>,
    pub comments: Option<Vec<Comment>>,
    pub parent_id: Option<String>,
    pub children: Option<Vec<String>>,
    pub design_doc: Option<String>,
    pub deps: Option<Vec<String>>,
    pub relates_to: Option<Vec<String>>,
    /// Raw dependencies as read; consumed by post-processing and never written out.
    pub dependencies: Option<RawDependencies>,
}

/// The two beads agree on every field that post-processing leaves alone.
pub open spec fn same_content(a: Bead, b: Bead) -> bool {
    &&& a.id == b.id
    &&& a.title == b.title
    &&& a.description == b.description
    &&& a.status == b.status
    &&& a.priority == b.priority
    &&& a.issue_type == b.issue_type
    &&& a.owner == b.owner
    &&& a.created_at == b.created_at
    &&& a.created_by == b.created_by
    &&& a.updated_at == b.updated_at
    &&& a.closed_at == b.closed_at
    &&& a.close_reason == b.close_reason
    &&& a.comments == b.comments
    &&& a.design_doc == b.design_doc
}

/// Query parameters for the beads endpoint.
#[derive(Debug)]
pub struct BeadsParams {
    /// The project path containing .beads/issues.jsonl
    pub path: String,
    /// Optional ISO 8601 timestamp: only beads updated after this time.
    pub updated_after: Option<String>,
}

/// Request body for creating a new bead.
#[derive(Debug)]
pub struct CreateBeadRequest {
    /// Project path or `dolt://dbname`
    pub path: String,
    /// Bead title (required)
    pub title: String,
    /// Bead description (optional)
    pub description: Option<String>,
    /// Issue type: task, bug, feature, epic (default: task)
    pub issue_type: Option<String>,
    /// Priority 0-4 (default: 2)
    pub priority: Option<i32>,
    /// Parent bead ID (for subtasks)
    pub parent_id: Option<String>,
}

/// Request body for updating a bead.
#[derive(Debug)]
pub struct UpdateBeadRequest {
    /// Project path or `dolt://dbname`
    pub path: String,
    /// Bead ID to update
    pub id: String,
    /// New title (optional)
    pub title: Option<String>,
    /// New description (optional)
    pub description: Option<String>,
    /// New status (optional)
    pub status: Option<String>,
}

} // verus!
