//! The decisions of the bead create and update endpoints: request checks,
//! the ids of beads created in Dolt, the `bd` command lines, and the
//! replies made of a finished `bd` command.

use vstd::prelude::*;
use crate::beads::{CreateBeadRequest, UpdateBeadRequest, str_views};
use crate::sources::{nonblank_lines, nonblank_lines_spec, opt_view_str};
use crate::text::{
    chars_of, concat_str, i64_decimal, int_decimal, nat_digits, is_prefix, is_whitespace, is_ws, starts_with_chars,
    string_of, strip_prefix_str, sub_chars, trim_spec, trim_str,
};

verus! {

/// An error answer of an endpoint: an HTTP status and a message.
#[derive(Debug)]
pub struct ApiError {
    pub status: u16,
    pub error: String,
}

/// What a bead endpoint answers with.
#[derive(Debug)]
pub enum BeadReply {
    /// `{"id": ...}`, with `"stdout"` when the CLI created the bead.
    Created { id: String, stdout: Option<String> },
    /// `{"success": true}`
    Success,
    /// `{"error": ...}`
    Error(String),
}

/// `reply` is an error answer with message `msg`.
pub open spec fn is_error(reply: BeadReply, msg: Seq<char>) -> bool {
    reply matches BeadReply::Error(e) && e@ == msg
}

/// How a `bd` command ended.
#[derive(Debug)]
pub enum CommandOutcome {
    /// It ran to its end, successfully or not, with this output.
    Finished { success: bool, stdout: String, stderr: String },
    /// It could not be started.
    SpawnFailed(String),
    /// It did not end within the time allowed.
    TimedOut,
}

// ===== Creating a bead =====

/// The checked fields of a create request.
#[derive(Debug)]
pub struct CreatePlan {
    /// The title, trimmed.
    pub title: String,
    pub issue_type: String,
    pub priority: i32,
}

/// `p` clamped to the range 0 to 4.
pub open spec fn clamp_priority(p: int) -> int {
    if p < 0 {
        0
    } else if p > 4 {
        4
    } else {
        p
    }
}

/// `r` is what checking `req` gives: a blank title is refused; the type
/// defaults to `task`, the priority to 2, clamped to 0..=4.
pub open spec fn create_checked(req: CreateBeadRequest, r: Result<CreatePlan, ApiError>) -> bool {
    if trim_spec(req.title@).len() == 0 {
        r matches Err(e) && e.status == 400 && e.error@ == "Title is required"@
    } else {
        r matches Ok(plan) && {
            &&& plan.title@ == trim_spec(req.title@)
            &&& plan.issue_type@ == match req.issue_type {
                Some(t) => t@,
                None => "task"@,
            }
            &&& plan.priority == clamp_priority(
                match req.priority {
                    Some(p) => p as int,
                    None => 2,
                },
            )
        }
    }
}

/// Checks a create request and fills in its defaults.
pub fn check_create(req: &CreateBeadRequest) -> (r: Result<CreatePlan, ApiError>)
    ensures
        create_checked(*req, r),
{
    let title = trim_str(req.title.as_str());
    if title.as_str().is_empty() {
        return Err(ApiError { status: 400, error: String::from_str("Title is required") });
    }
    let issue_type = match &req.issue_type {
        Some(t) => t.clone(),
        None => String::from_str("task"),
    };
    let p = match req.priority {
        Some(p) => p,
        None => 2,
    };
    let priority = if p < 0 {
        0
    } else if p > 4 {
        4
    } else {
        p
    };
    Ok(CreatePlan { title, issue_type, priority })
}

/// The id prefix of beads created in Dolt database `db`: its name without
/// a leading `beads_`.
pub open spec fn dolt_prefix_spec(db: Seq<char>) -> Seq<char> {
    if is_prefix("beads_"@, db) {
        db.skip("beads_"@.len() as int)
    } else {
        db
    }
}

/// The stamp that ends an id made at `millis` milliseconds: the decimal
/// form of `millis` from its seventh character on. There is none when the
/// decimal form is shorter than six characters.
pub open spec fn stamp_spec(millis: int) -> Option<Seq<char>> {
    if int_decimal(millis).len() >= 6 {
        Some(int_decimal(millis).skip(6))
    } else {
        None
    }
}

/// The stamp for `millis` (see `stamp_spec`).
pub fn millis_stamp(millis: i64) -> (r: Option<String>)
    ensures
        opt_view_str(r) == stamp_spec(millis as int),
{
    let d = i64_decimal(millis);
    if d.len() < 6 {
        return None;
    }
    let tail = sub_chars(d.as_slice(), 6, d.len());
    assert(tail@ =~= int_decimal(millis as int).skip(6));
    Some(string_of(tail.as_slice()))
}

/// A number of at least 100000 has at least six decimal digits.
proof fn lemma_six_digits(n: nat)
    requires
        n >= 100000,
    ensures
        nat_digits(n).len() >= 6,
{
    let n1 = n / 10;
    let n2 = n1 / 10;
    let n3 = n2 / 10;
    let n4 = n3 / 10;
    let n5 = n4 / 10;
    assert(n1 >= 10000 && n2 >= 1000 && n3 >= 100 && n4 >= 10 && n5 >= 1);
    assert(nat_digits(n5).len() >= 1);
    assert(nat_digits(n4).len() == nat_digits(n5).len() + 1);
    assert(nat_digits(n3).len() == nat_digits(n4).len() + 1);
    assert(nat_digits(n2).len() == nat_digits(n3).len() + 1);
    assert(nat_digits(n1).len() == nat_digits(n2).len() + 1);
    assert(nat_digits(n).len() == nat_digits(n1).len() + 1);
}

/// The id of a bead created in Dolt database `db` with stamp `stamp`.
pub open spec fn dolt_bead_id_spec(db: Seq<char>, stamp: Seq<char>) -> Seq<char> {
    dolt_prefix_spec(db) + "-"@ + stamp
}

/// The id of a bead created in Dolt database `db_name` with stamp `stamp`:
/// the database name without `beads_`, a `-` and the stamp.
pub fn dolt_bead_id(db_name: &str, stamp: &str) -> (r: String)
    ensures
        r@ == dolt_bead_id_spec(db_name@, stamp@),
{
    let prefix = match strip_prefix_str(db_name, "beads_") {
        Some(rest) => rest,
        None => String::from_str(db_name),
    };
    let with_dash = concat_str(prefix.as_str(), "-");
    concat_str(with_dash.as_str(), stamp)
}

/// A new id for a bead created in Dolt database `db_name`, stamped with
/// the current time in milliseconds; `None` when that time's decimal form
/// is shorter than six characters.
pub fn new_dolt_bead_id(db_name: &str) -> (r: Option<String>)
    ensures
        match r {
            Some(id) => exists|millis: i64|
                millis >= 0 && (#[trigger] stamp_spec(millis as int) matches Some(st) && id@ == dolt_bead_id_spec(
                    db_name@,
                    st,
                )),
            None => exists|millis: i64| 0 <= millis < 100000 && #[trigger] stamp_spec(millis as int) is None,
        },
{
    let millis = crate::external::now_millis();
    match millis_stamp(millis) {
        Some(stamp) => {
            let id = dolt_bead_id(db_name, stamp.as_str());
            assert(stamp_spec(millis as int) matches Some(st) && id@ == dolt_bead_id_spec(db_name@, st));
            Some(id)
        },
        None => {
            assert(stamp_spec(millis as int) is None);
            proof {
                if millis >= 100000 {
                    lemma_six_digits(millis as nat);
                }
            }
            None
        },
    }
}

/// The `bd create` arguments for a checked request.
pub open spec fn create_args_spec(req: CreateBeadRequest, plan: CreatePlan) -> Seq<Seq<char>> {
    let a = seq!["create"@, "--title="@ + plan.title@];
    let b = match req.description {
        Some(d) => if trim_spec(d@).len() > 0 {
            a.push("-d="@ + d@)
        } else {
            a
        },
        None => a,
    };
    let c = b.push("--type="@ + plan.issue_type@).push("--priority="@ + int_decimal(plan.priority as int));
    match req.parent_id {
        Some(p) => c.push("--parent="@ + p@),
        None => c,
    }
}

/// The `bd create` arguments: the title, the description when it is not
/// blank, the type, the priority and the parent when given.
pub fn create_args(req: &CreateBeadRequest, plan: &CreatePlan) -> (r: Vec<String>)
    ensures
        str_views(r@) == create_args_spec(*req, *plan),
{
    let mut args: Vec<String> = Vec::new();
    args.push(String::from_str("create"));
    args.push(concat_str("--title=", plan.title.as_str()));
    if let Some(d) = &req.description {
        let t = trim_str(d.as_str());
        if !t.as_str().is_empty() {
            args.push(concat_str("-d=", d.as_str()));
        }
    }
    args.push(concat_str("--type=", plan.issue_type.as_str()));
    let digits = i64_decimal(plan.priority as i64);
    let digits = string_of(digits.as_slice());
    args.push(concat_str("--priority=", digits.as_str()));
    if let Some(p) = &req.parent_id {
        args.push(concat_str("--parent=", p.as_str()));
    }
    proof {
        let spec = create_args_spec(*req, *plan);
        assert(str_views(args@) =~= spec);
    }
    args
}

/// The last whitespace-separated word of `t`.
pub open spec fn last_word(t: Seq<char>) -> Seq<char> {
    if exists|k: int| 0 <= k < t.len() && is_ws(#[trigger] t[k]) {
        t.skip(
            (choose|k: int|
                0 <= k < t.len() && is_ws(#[trigger] t[k]) && forall|j: int| k < j < t.len() ==> !is_ws(t[j]))
                + 1,
        )
    } else {
        t
    }
}

/// The id that `bd create` reports in its output: its first non-blank
/// line, trimmed, or the last word of that line when it starts with
/// `Created`; the whole output trimmed when it has no such line.
pub open spec fn created_id_spec(stdout: Seq<char>) -> Seq<char> {
    let ls = nonblank_lines_spec(stdout);
    if ls.len() > 0 {
        if is_prefix("Created"@, ls[0]) {
            last_word(ls[0])
        } else {
            ls[0]
        }
    } else {
        trim_spec(stdout)
    }
}

/// The last whitespace-separated word of `t`.
fn last_word_of(t: &str) -> (r: String)
    ensures
        r@ == last_word(t@),
{
    let cs = chars_of(t);
    let n = cs.len();
    let mut k: usize = n;
    while k > 0
        invariant
            n == cs@.len(),
            cs@ == t@,
            k <= n,
            forall|j: int| k <= j < n ==> !is_ws(#[trigger] cs@[j]),
        decreases k,
    {
        if is_whitespace(cs[k - 1]) {
            proof {
                let w = (k - 1) as int;
                assert(is_ws(t@[w]));
                let c = choose|q: int|
                    0 <= q < t@.len() && is_ws(#[trigger] t@[q]) && forall|j: int| q < j < t@.len() ==> !is_ws(t@[j]);
                if c < w {
                    assert(!is_ws(t@[w]));
                } else if c > w {
                    assert(!is_ws(cs@[c]));
                }
                assert(c == w);
            }
            let tail = sub_chars(cs.as_slice(), k, n);
            assert(tail@ =~= last_word(t@));
            return string_of(tail.as_slice());
        }
        k -= 1;
    }
    proof {
        assert(!exists|q: int| 0 <= q < t@.len() && is_ws(#[trigger] t@[q])) by {
            if exists|q: int| 0 <= q < t@.len() && is_ws(#[trigger] t@[q]) {
                let q = choose|q: int| 0 <= q < t@.len() && is_ws(#[trigger] t@[q]);
                assert(!is_ws(cs@[q]));
            }
        }
    }
    String::from_str(t)
}

/// The id of the new bead in the output of `bd create`.
pub fn created_id(stdout: &str) -> (r: String)
    ensures
        r@ == created_id_spec(stdout@),
{
    let lines = nonblank_lines(stdout);
    if lines.len() > 0 {
        assert(str_views(lines@)[0] == lines@[0]@);
        let first = lines[0].as_str();
        let fc = chars_of(first);
        let created = chars_of("Created");
        if starts_with_chars(fc.as_slice(), created.as_slice()) {
            last_word_of(first)
        } else {
            first.to_owned()
        }
    } else {
        trim_str(stdout)
    }
}

/// The status and answer for a finished `bd create`.
pub open spec fn create_reply_spec(o: CommandOutcome, status: u16, reply: BeadReply) -> bool {
    match o {
        CommandOutcome::Finished { success, stdout, stderr } => if success {
            status == 201 && (reply matches BeadReply::Created { id, stdout: Some(out) } && id@
                == created_id_spec(stdout@) && out@ == trim_spec(stdout@))
        } else {
            status == 500 && is_error(reply, trim_spec(stderr@))
        },
        CommandOutcome::SpawnFailed(m) => status == 500 && is_error(reply, "Failed to execute bd: "@ + m@),
        CommandOutcome::TimedOut => status == 504 && is_error(reply, "bd command timed out"@),
    }
}

/// The error answers shared by the create and update endpoints when `bd`
/// fails, could not start or times out.
fn command_failure(o: &CommandOutcome) -> (r: (u16, BeadReply))
    requires
        !(o matches CommandOutcome::Finished { success: true, .. }),
    ensures
        match *o {
            CommandOutcome::Finished { stderr, .. } => r.0 == 500 && is_error(r.1, trim_spec(stderr@)),
            CommandOutcome::SpawnFailed(m) => r.0 == 500 && is_error(r.1, "Failed to execute bd: "@ + m@),
            CommandOutcome::TimedOut => r.0 == 504 && is_error(r.1, "bd command timed out"@),
        },
{
    match o {
        CommandOutcome::Finished { stderr, .. } => (500, BeadReply::Error(trim_str(stderr.as_str()))),
        CommandOutcome::SpawnFailed(m) => (500, BeadReply::Error(concat_str("Failed to execute bd: ", m.as_str()))),
        CommandOutcome::TimedOut => (504, BeadReply::Error(String::from_str("bd command timed out"))),
    }
}

/// The status and answer of the create endpoint once `bd create` ended.
pub fn create_reply(o: &CommandOutcome) -> (r: (u16, BeadReply))
    ensures
        create_reply_spec(*o, r.0, r.1),
{
    match o {
        CommandOutcome::Finished { success: true, stdout, .. } => {
            let id = created_id(stdout.as_str());
            (201, BeadReply::Created { id, stdout: Some(trim_str(stdout.as_str())) })
        },
        _ => command_failure(o),
    }
}

// ===== Updating a bead =====

/// `r` is what checking `req` gives: a blank id is refused, then a request
/// that changes nothing.
pub open spec fn update_checked(req: UpdateBeadRequest, r: Result<(), ApiError>) -> bool {
    if trim_spec(req.id@).len() == 0 {
        r matches Err(e) && e.status == 400 && e.error@ == "Bead ID is required"@
    } else if req.title is None && req.description is None && req.status is None {
        r matches Err(e) && e.status == 400 && e.error@ == "No fields to update"@
    } else {
        r is Ok
    }
}

/// Checks an update request.
pub fn check_update(req: &UpdateBeadRequest) -> (r: Result<(), ApiError>)
    ensures
        update_checked(*req, r),
{
    let id = trim_str(req.id.as_str());
    if id.as_str().is_empty() {
        return Err(ApiError { status: 400, error: String::from_str("Bead ID is required") });
    }
    if req.title.is_none() && req.description.is_none() && req.status.is_none() {
        return Err(ApiError { status: 400, error: String::from_str("No fields to update") });
    }
    Ok(())
}

/// The `bd update` arguments for a request.
pub open spec fn update_args_spec(req: UpdateBeadRequest) -> Seq<Seq<char>> {
    let a = seq!["update"@, req.id@];
    let b = match req.title {
        Some(t) => a.push("--title="@ + t@),
        None => a,
    };
    let c = match req.description {
        Some(d) => b.push("-d="@ + d@),
        None => b,
    };
    match req.status {
        Some(s) => c.push("--status="@ + s@),
        None => c,
    }
}

/// The `bd update` arguments: the id, then each field given.
pub fn update_args(req: &UpdateBeadRequest) -> (r: Vec<String>)
    ensures
        str_views(r@) == update_args_spec(*req),
{
    let mut args: Vec<String> = Vec::new();
    args.push(String::from_str("update"));
    args.push(req.id.clone());
    if let Some(t) = &req.title {
        args.push(concat_str("--title=", t.as_str()));
    }
    if let Some(d) = &req.description {
        args.push(concat_str("-d=", d.as_str()));
    }
    if let Some(s) = &req.status {
        args.push(concat_str("--status=", s.as_str()));
    }
    proof {
        assert(str_views(args@) =~= update_args_spec(*req));
    }
    args
}

/// The status and answer for a finished `bd update`.
pub open spec fn update_reply_spec(o: CommandOutcome, status: u16, reply: BeadReply) -> bool {
    match o {
        CommandOutcome::Finished { success, stderr, .. } => if success {
            status == 200 && reply is Success
        } else {
            status == 500 && is_error(reply, trim_spec(stderr@))
        },
        CommandOutcome::SpawnFailed(m) => status == 500 && is_error(reply, "Failed to execute bd: "@ + m@),
        CommandOutcome::TimedOut => status == 504 && is_error(reply, "bd command timed out"@),
    }
}

/// The status and answer of the update endpoint once `bd update` ended.
pub fn update_reply(o: &CommandOutcome) -> (r: (u16, BeadReply))
    ensures
        update_reply_spec(*o, r.0, r.1),
{
    match o {
        CommandOutcome::Finished { success: true, .. } => (200, BeadReply::Success),
        _ => command_failure(o),
    }
}

/// The answer when the Dolt server is down: 503, `Dolt server is not running`.
pub fn dolt_unavailable() -> (r: (u16, BeadReply))
    ensures
        r.0 == 503 && is_error(r.1, "Dolt server is not running"@),
{
    (503, BeadReply::Error(String::from_str("Dolt server is not running")))
}

/// The answer of a write through Dolt: `ok` on success (201 with the id for
/// a create, 200 for an update), else 500 with the error's text.
pub fn dolt_write_reply(result: Result<(), String>, created: Option<String>) -> (r: (u16, BeadReply))
    ensures
        match result {
            Ok(()) => match created {
                Some(id) => r.0 == 201 && r.1 == BeadReply::Created { id, stdout: None },
                None => r.0 == 200 && r.1 is Success,
            },
            Err(e) => r.0 == 500 && r.1 == BeadReply::Error(e),
        },
{
    match result {
        Ok(()) => match created {
            Some(id) => (201, BeadReply::Created { id, stdout: None }),
            None => (200, BeadReply::Success),
        },
        Err(e) => (500, BeadReply::Error(e)),
    }
}

} // verus!
