//! The decisions of a beads read: which source is tried next, and what is
//! answered. A `dolt://` path is read from the central Dolt server; a
//! filesystem path falls back from the project's own Dolt server to the
//! central one, then to the `bd` CLI, then to the JSONL export.
//!
//! The caller performs each action (a check or a read) and hands back what
//! came of it; `read_step` decides the next action.

use vstd::prelude::*;
use crate::external::is_rfc3339_utc;
use crate::beads::Bead;
use crate::db::Database;
use crate::links::{post_process_beads, post_processed};
use crate::sources::{counts_cached, normalize_path, strip_dolt_prefix, upsert_counts_cache};
use crate::text::{is_prefix, replace_char_spec};

verus! {

/// Where a read of beads stands.
#[derive(Debug)]
pub enum ReadState {
    /// A `dolt://` path for this database: is the Dolt server up?
    DoltServer(String),
    /// Reading the database from the central Dolt server.
    DoltDirect,
    /// A filesystem path: is it allowed?
    Security,
    /// Does the project have a `.beads` directory?
    BeadsDir,
    /// Reading from the project's own Dolt server.
    ProjectDolt,
    /// Reading from the central Dolt server.
    CentralDolt,
    /// Reading through the `bd` CLI.
    Cli,
    /// Does the JSONL export exist?
    JsonlExists,
    /// Reading the JSONL export.
    Jsonl,
    /// The read is over.
    Finished,
}

/// What came of the last action.
#[derive(Debug)]
pub enum ReadEvent {
    /// The answer to a check: `Ok` for yes, `Err` with the reason for no.
    Answer(Result<(), String>),
    /// What a read returned.
    Read(Result<Vec<Bead>, String>),
}

/// What the caller does next.
#[derive(Debug)]
pub enum ReadAction {
    /// Check that the Dolt server is up.
    CheckDoltServer,
    /// Read the beads of this database from the central Dolt server.
    ReadDolt(String),
    /// Check that the path is allowed.
    CheckPath,
    /// Check that the project has a `.beads` directory.
    CheckBeadsDir,
    /// Read from the project's own Dolt server.
    TryProjectDolt,
    /// Read from the central Dolt server.
    TryCentralDolt,
    /// Read through the `bd` CLI.
    TryCli,
    /// Check that the JSONL export exists.
    CheckJsonl,
    /// Read the JSONL export.
    ReadJsonl,
    /// Answer with these beads, read from `source`.
    Done { beads: Vec<Bead>, source: &'static str },
    /// Answer with this status and error.
    Fail { status: u16, error: String },
}

/// `a` is a failure with status `status` and message `msg`.
pub open spec fn is_fail(a: ReadAction, status: u16, msg: Seq<char>) -> bool {
    a matches ReadAction::Fail { status: s, error } && s == status && error@ == msg
}

/// The first state and action of a read of `path` (its backslashes
/// turned into slashes): a `dolt://` path asks whether the Dolt server is
/// up; any other path asks whether it is allowed.
pub open spec fn read_start_spec(path: Seq<char>, s: ReadState, a: ReadAction) -> bool {
    let p = replace_char_spec(path, '\\', '/');
    if is_prefix("dolt://"@, p) {
        s matches ReadState::DoltServer(db) && db@ == p.skip(7) && a is CheckDoltServer
    } else {
        s is Security && a is CheckPath
    }
}

/// Starts a read of `path`.
pub fn read_start(path: &str) -> (r: (ReadState, ReadAction))
    ensures
        read_start_spec(path@, r.0, r.1),
{
    proof {
        reveal_strlit("dolt://");
    }
    let p = normalize_path(path);
    match strip_dolt_prefix(p.as_str()) {
        Some(db) => (ReadState::DoltServer(db), ReadAction::CheckDoltServer),
        None => (ReadState::Security, ReadAction::CheckPath),
    }
}

/// The event that state `s` waits for: an answer to a check, or a read.
pub open spec fn fits(s: ReadState, e: ReadEvent) -> bool {
    match s {
        ReadState::DoltServer(_) | ReadState::Security | ReadState::BeadsDir | ReadState::JsonlExists => e is Answer,
        ReadState::DoltDirect | ReadState::ProjectDolt | ReadState::CentralDolt | ReadState::Cli
        | ReadState::Jsonl => e is Read,
        ReadState::Finished => false,
    }
}

/// Whether state `s` waits for an answer to a check (rather than a read).
pub fn waits_for_answer(s: &ReadState) -> (r: bool)
    ensures
        r <==> (*s is DoltServer || *s is Security || *s is BeadsDir || *s is JsonlExists),
{
    match s {
        ReadState::DoltServer(_) | ReadState::Security | ReadState::BeadsDir | ReadState::JsonlExists => true,
        _ => false,
    }
}

/// A read from `source` that failed moves to state `next` with action
/// `then`; one that succeeded is done.
pub open spec fn tier_step(e: ReadEvent, source: &'static str, next: ReadState, then: ReadAction, s2: ReadState, a: ReadAction) -> bool {
    match e {
        ReadEvent::Read(Ok(beads)) => s2 is Finished && a == ReadAction::Done { beads, source },
        _ => s2 == next && a == then,
    }
}

/// The next state and action after event `e` in state `s`.
pub open spec fn read_step_spec(s: ReadState, e: ReadEvent, s2: ReadState, a: ReadAction) -> bool {
    match s {
        ReadState::DoltServer(db) => match e {
            ReadEvent::Answer(Ok(())) => s2 is DoltDirect && a == ReadAction::ReadDolt(db),
            _ => s2 is Finished && is_fail(a, 503, "Dolt server is not running"@),
        },
        ReadState::DoltDirect => match e {
            ReadEvent::Read(Ok(beads)) => s2 is Finished && a == ReadAction::Done { beads, source: "dolt-direct" },
            ReadEvent::Read(Err(m)) => s2 is Finished && a == ReadAction::Fail { status: 500, error: m },
            _ => false,
        },
        ReadState::Security => match e {
            ReadEvent::Answer(Ok(())) => s2 is BeadsDir && a is CheckBeadsDir,
            ReadEvent::Answer(Err(m)) => s2 is Finished && a == ReadAction::Fail { status: 403, error: m },
            _ => false,
        },
        ReadState::BeadsDir => match e {
            ReadEvent::Answer(Ok(())) => s2 is ProjectDolt && a is TryProjectDolt,
            _ => s2 is Finished && is_fail(a, 404, "No .beads directory found at the specified path"@),
        },
        ReadState::ProjectDolt => tier_step(e, "dolt-project", ReadState::CentralDolt, ReadAction::TryCentralDolt, s2, a),
        ReadState::CentralDolt => tier_step(e, "dolt-central", ReadState::Cli, ReadAction::TryCli, s2, a),
        ReadState::Cli => tier_step(e, "cli", ReadState::JsonlExists, ReadAction::CheckJsonl, s2, a),
        ReadState::JsonlExists => match e {
            ReadEvent::Answer(Ok(())) => s2 is Jsonl && a is ReadJsonl,
            _ => s2 is Finished && is_fail(
                a,
                404,
                "No data source available: Dolt SQL, bd CLI, and JSONL all failed"@,
            ),
        },
        ReadState::Jsonl => match e {
            ReadEvent::Read(Ok(beads)) => s2 is Finished && a == ReadAction::Done { beads, source: "jsonl" },
            ReadEvent::Read(Err(m)) => s2 is Finished && a == ReadAction::Fail { status: 500, error: m },
            _ => false,
        },
        ReadState::Finished => false,
    }
}

/// Decides what follows event `e` in state `s`.
pub fn read_step(s: ReadState, e: ReadEvent) -> (r: (ReadState, ReadAction))
    requires
        fits(s, e),
    ensures
        read_step_spec(s, e, r.0, r.1),
{
    match s {
        ReadState::DoltServer(db) => match e {
            ReadEvent::Answer(Ok(())) => (ReadState::DoltDirect, ReadAction::ReadDolt(db)),
            _ => (
                ReadState::Finished,
                ReadAction::Fail { status: 503, error: String::from_str("Dolt server is not running") },
            ),
        },
        ReadState::DoltDirect => match e {
            ReadEvent::Read(Ok(beads)) => (ReadState::Finished, ReadAction::Done { beads, source: "dolt-direct" }),
            ReadEvent::Read(Err(m)) => (ReadState::Finished, ReadAction::Fail { status: 500, error: m }),
            ReadEvent::Answer(_) => (ReadState::Finished, ReadAction::CheckPath),
        },
        ReadState::Security => match e {
            ReadEvent::Answer(Ok(())) => (ReadState::BeadsDir, ReadAction::CheckBeadsDir),
            ReadEvent::Answer(Err(m)) => (ReadState::Finished, ReadAction::Fail { status: 403, error: m }),
            ReadEvent::Read(_) => (ReadState::Finished, ReadAction::CheckPath),
        },
        ReadState::BeadsDir => match e {
            ReadEvent::Answer(Ok(())) => (ReadState::ProjectDolt, ReadAction::TryProjectDolt),
            _ => (
                ReadState::Finished,
                ReadAction::Fail {
                    status: 404,
                    error: String::from_str("No .beads directory found at the specified path"),
                },
            ),
        },
        ReadState::ProjectDolt => match e {
            ReadEvent::Read(Ok(beads)) => (ReadState::Finished, ReadAction::Done { beads, source: "dolt-project" }),
            _ => (ReadState::CentralDolt, ReadAction::TryCentralDolt),
        },
        ReadState::CentralDolt => match e {
            ReadEvent::Read(Ok(beads)) => (ReadState::Finished, ReadAction::Done { beads, source: "dolt-central" }),
            _ => (ReadState::Cli, ReadAction::TryCli),
        },
        ReadState::Cli => match e {
            ReadEvent::Read(Ok(beads)) => (ReadState::Finished, ReadAction::Done { beads, source: "cli" }),
            _ => (ReadState::JsonlExists, ReadAction::CheckJsonl),
        },
        ReadState::JsonlExists => match e {
            ReadEvent::Answer(Ok(())) => (ReadState::Jsonl, ReadAction::ReadJsonl),
            _ => (
                ReadState::Finished,
                ReadAction::Fail {
                    status: 404,
                    error: String::from_str("No data source available: Dolt SQL, bd CLI, and JSONL all failed"),
                },
            ),
        },
        ReadState::Jsonl => match e {
            ReadEvent::Read(Ok(beads)) => (ReadState::Finished, ReadAction::Done { beads, source: "jsonl" }),
            ReadEvent::Read(Err(m)) => (ReadState::Finished, ReadAction::Fail { status: 500, error: m }),
            ReadEvent::Answer(_) => (ReadState::Finished, ReadAction::CheckPath),
        },
        ReadState::Finished => (ReadState::Finished, ReadAction::CheckPath),
    }
}

/// Finishes a successful read of `path` from `source`: the beads are
/// post-processed, and their per-status counts are cached for the
/// project stored at `path`.
pub fn finish_read(db: &mut Database, path: &str, source: &str, beads: Vec<Bead>) -> (r: Vec<Bead>)
    requires
        old(db).wf(),
        beads@.len() <= i64::MAX,
    ensures
        final(db).wf(),
        post_processed(beads@, r@),
        exists|now: String| is_rfc3339_utc(now@) && counts_cached(old(db)@, final(db)@, path@, r@, source@, now),
{
    let out = post_process_beads(beads);
    upsert_counts_cache(db, path, source, out.as_slice());
    out
}

} // verus!
