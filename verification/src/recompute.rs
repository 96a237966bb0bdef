//! The epic recomputation over the JSONL export: which lines are kept and
//! read as beads, and the lines written back once epic statuses changed.
//! Lines are written back from their parsed JSON values, so every field
//! keeps the name it had in the file.

use vstd::prelude::*;
use crate::beads::{Bead, opt_view, str_views};
use crate::db::keep;
use crate::epic::{
    EpicStatusWrite, compute_epic_updates, epic_updates_spec, id_views, pair_views, plan_epic_status_writes,
    write_views, writes_spec,
};
use crate::external::{
    json_get_string_field, json_reserialize, json_reserialized, json_set_string_field, json_string_field,
    json_with_string_field,
};
use crate::sources::{LineKind, classify_line, line_kind_spec, nonblank_lines, nonblank_lines_spec};

verus! {

// ===== Lines of the file =====

/// Holds of lines that are JSON.
pub open spec fn parsed_line() -> spec_fn(Seq<char>) -> bool {
    |l: Seq<char>| !(line_kind_spec(l) is Invalid)
}

/// Holds of lines read as beads: JSON, and not a service record.
pub open spec fn record_line() -> spec_fn(Seq<char>) -> bool {
    |l: Seq<char>| line_kind_spec(l) is Record
}

/// The lines of `contents` that the recomputation keeps, in order: the
/// trimmed non-blank lines that are JSON.
pub fn kept_lines(contents: &str) -> (r: Vec<String>)
    ensures
        str_views(r@) == keep(nonblank_lines_spec(contents@), parsed_line()),
{
    let lines = nonblank_lines(contents);
    let ghost all = str_views(lines@);
    let n = lines.len();
    let mut out: Vec<String> = Vec::new();
    let mut i: usize = 0;
    while i < n
        invariant
            n == lines@.len(),
            all == str_views(lines@),
            i <= n,
            str_views(out@) == keep(all.take(i as int), parsed_line()),
        decreases n - i,
    {
        assert(all.take(i + 1).drop_last() =~= all.take(i as int));
        assert(all.take(i + 1).last() == lines@[i as int]@);
        let ghost before = out@;
        let kind = classify_line(lines[i].as_str());
        if !matches!(kind, LineKind::Invalid) {
            out.push(lines[i].clone());
            assert(str_views(out@) =~= str_views(before).push(lines@[i as int]@));
        }
        i += 1;
    }
    assert(all.take(n as int) =~= all);
    out
}

/// The lines of `contents` read as beads, in order: the trimmed non-blank
/// lines that are JSON and not service records.
pub fn record_lines(contents: &str) -> (r: Vec<String>)
    ensures
        str_views(r@) == keep(nonblank_lines_spec(contents@), record_line()),
{
    let lines = nonblank_lines(contents);
    let ghost all = str_views(lines@);
    let n = lines.len();
    let mut out: Vec<String> = Vec::new();
    let mut i: usize = 0;
    while i < n
        invariant
            n == lines@.len(),
            all == str_views(lines@),
            i <= n,
            str_views(out@) == keep(all.take(i as int), record_line()),
        decreases n - i,
    {
        assert(all.take(i + 1).drop_last() =~= all.take(i as int));
        assert(all.take(i + 1).last() == lines@[i as int]@);
        let ghost before = out@;
        let kind = classify_line(lines[i].as_str());
        if matches!(kind, LineKind::Record) {
            out.push(lines[i].clone());
            assert(str_views(out@) =~= str_views(before).push(lines@[i as int]@));
        }
        i += 1;
    }
    assert(all.take(n as int) =~= all);
    out
}

/// The string `id` of each line, where it is a JSON object that has one.
pub open spec fn json_ids(lines: Seq<Seq<char>>) -> Seq<Option<Seq<char>>> {
    lines.map_values(|l: Seq<char>| json_string_field(l, "id"@))
}

/// The string `id` of each line.
pub fn line_ids_of(lines: &Vec<String>) -> (r: Vec<Option<String>>)
    ensures
        id_views(r@) == json_ids(str_views(lines@)),
{
    let mut r: Vec<Option<String>> = Vec::new();
    let n = lines.len();
    let mut i: usize = 0;
    while i < n
        invariant
            n == lines@.len(),
            i <= n,
            r@.len() == i,
            forall|k: int| 0 <= k < i ==> opt_view(#[trigger] r@[k]) == json_string_field(lines@[k]@, "id"@),
        decreases n - i,
    {
        r.push(json_get_string_field(lines[i].as_str(), "id"));
        i += 1;
    }
    assert(id_views(r@) =~= json_ids(str_views(lines@)));
    r
}

// ===== Writing lines back =====

/// Line `i` (its text so far `l`) after the writes of `writes` aimed at
/// it, in order: each sets `status` to the write's status, then
/// `updated_at` to `now`.
pub open spec fn written_line(
    l: Option<Seq<char>>,
    writes: Seq<(int, Seq<char>, Seq<char>)>,
    i: int,
    now: Seq<char>,
) -> Option<Seq<char>>
    decreases writes.len(),
{
    if writes.len() == 0 {
        l
    } else {
        let prev = written_line(l, writes.drop_last(), i, now);
        let w = writes.last();
        if w.0 == i {
            match prev {
                Some(t) => match json_with_string_field(t, "status"@, w.2) {
                    Some(t2) => json_with_string_field(t2, "updated_at"@, now),
                    None => None,
                },
                None => None,
            }
        } else {
            prev
        }
    }
}

/// Some write is aimed at line `i`.
pub open spec fn is_written(writes: Seq<(int, Seq<char>, Seq<char>)>, i: int) -> bool {
    exists|k: int| 0 <= k < writes.len() && (#[trigger] writes[k]).0 == i
}

/// What line `i` becomes: with its writes applied when some are aimed at
/// it, else parsed and written back as it is; `None` drops it.
pub open spec fn line_result(
    lines: Seq<Seq<char>>,
    writes: Seq<(int, Seq<char>, Seq<char>)>,
    i: int,
    now: Seq<char>,
) -> Option<Seq<char>> {
    if is_written(writes, i) {
        written_line(Some(lines[i]), writes, i, now)
    } else {
        json_reserialized(lines[i])
    }
}

/// The first `n` lines written back, in order, without the dropped ones.
pub open spec fn rewritten(
    lines: Seq<Seq<char>>,
    writes: Seq<(int, Seq<char>, Seq<char>)>,
    now: Seq<char>,
    n: int,
) -> Seq<Seq<char>>
    decreases n,
{
    if n <= 0 {
        seq![]
    } else {
        let r = rewritten(lines, writes, now, n - 1);
        match line_result(lines, writes, n - 1, now) {
            Some(t) => r.push(t),
            None => r,
        }
    }
}

/// The view of an optional string.
pub open spec fn opt_text(o: Option<String>) -> Option<Seq<char>> {
    match o {
        Some(s) => Some(s@),
        None => None,
    }
}

/// Line `i` with the writes aimed at it applied, and whether there were any.
fn write_line(line: &String, writes: &Vec<EpicStatusWrite>, i: usize, now: &str) -> (r: (Option<String>, bool))
    ensures
        opt_text(r.0) == written_line(Some(line@), write_views(writes@), i as int, now@),
        r.1 == is_written(write_views(writes@), i as int),
{
    let ghost wv = write_views(writes@);
    let mut cur: Option<String> = Some(line.clone());
    let mut touched = false;
    let m = writes.len();
    let mut k: usize = 0;
    while k < m
        invariant
            m == writes@.len(),
            wv == write_views(writes@),
            k <= m,
            opt_text(cur) == written_line(Some(line@), wv.take(k as int), i as int, now@),
            touched == exists|q: int| 0 <= q < k && (#[trigger] wv[q]).0 == i,
        decreases m - k,
    {
        let ghost t = wv.take(k + 1);
        assert(t.drop_last() =~= wv.take(k as int));
        assert(t.last() == wv[k as int]);
        assert(wv[k as int] == (writes@[k as int].line as int, writes@[k as int].epic_id@, writes@[k as int].status@));
        if writes[k].line == i {
            touched = true;
            cur = match cur {
                Some(text) => match json_set_string_field(text.as_str(), "status", writes[k].status.as_str()) {
                    Some(t2) => json_set_string_field(t2.as_str(), "updated_at", now),
                    None => None,
                },
                None => None,
            };
        }
        k += 1;
    }
    assert(wv.take(m as int) =~= wv);
    (cur, touched)
}

/// The lines written back after the status writes `writes`, stamped
/// `now`: in file order, each line aimed at by writes has them applied
/// (`status` set, then `updated_at`), every other line is parsed and
/// written back as it is; a line that does not parse is dropped.
pub fn rewrite_epic_lines(lines: &Vec<String>, writes: &Vec<EpicStatusWrite>, now: &str) -> (r: Vec<String>)
    ensures
        str_views(r@) == rewritten(str_views(lines@), write_views(writes@), now@, lines@.len() as int),
{
    let ghost lv = str_views(lines@);
    let ghost wv = write_views(writes@);
    let n = lines.len();
    let mut out: Vec<String> = Vec::new();
    let mut i: usize = 0;
    while i < n
        invariant
            n == lines@.len(),
            lv == str_views(lines@),
            wv == write_views(writes@),
            i <= n,
            str_views(out@) == rewritten(lv, wv, now@, i as int),
        decreases n - i,
    {
        let (cur, touched) = write_line(&lines[i], writes, i, now);
        let result = if touched {
            cur
        } else {
            json_reserialize(lines[i].as_str())
        };
        assert(lv[i as int] == lines@[i as int]@);
        assert(opt_text(result) == line_result(lv, wv, i as int, now@));
        let ghost before = out@;
        if let Some(t) = result {
            out.push(t);
            assert(str_views(out@) =~= str_views(before).push(t@));
        }
        i += 1;
    }
    out
}

/// What recomputing epic statuses over the kept lines `raw`, whose beads
/// are `beads`, gives at time `now`: the ids of the updated epics, one per
/// write in order, and the lines to write back when there is a write.
pub fn recompute_epic_lines(raw: &Vec<String>, beads: &Vec<Bead>, now: &str) -> (r: (Vec<String>, Option<Vec<String>>))
    ensures
        ({
            let ws = writes_spec(json_ids(str_views(raw@)), epic_updates_spec(beads@, beads@));
            &&& str_views(r.0@) == ws.map_values(|w: (int, Seq<char>, Seq<char>)| w.1)
            &&& match r.1 {
                Some(ls) => ws.len() > 0 && str_views(ls@) == rewritten(str_views(raw@), ws, now@, raw@.len() as int),
                None => ws.len() == 0,
            }
        }),
{
    let ids = line_ids_of(raw);
    let updates = compute_epic_updates(beads);
    let writes = plan_epic_status_writes(&ids, &updates);
    let ghost ws = write_views(writes@);
    let mut updated: Vec<String> = Vec::new();
    let m = writes.len();
    let mut k: usize = 0;
    while k < m
        invariant
            m == writes@.len(),
            ws == write_views(writes@),
            k <= m,
            str_views(updated@) == ws.take(k as int).map_values(|w: (int, Seq<char>, Seq<char>)| w.1),
        decreases m - k,
    {
        assert(ws[k as int].1 == writes@[k as int].epic_id@);
        let ghost before = updated@;
        updated.push(writes[k].epic_id.clone());
        assert(str_views(updated@) =~= str_views(before).push(ws[k as int].1));
        assert(ws.take(k + 1).map_values(|w: (int, Seq<char>, Seq<char>)| w.1) =~= ws.take(k as int).map_values(
            |w: (int, Seq<char>, Seq<char>)| w.1,
        ).push(ws[k as int].1));
        k += 1;
    }
    assert(ws.take(m as int) =~= ws);
    if m == 0 {
        (updated, None)
    } else {
        let lines = rewrite_epic_lines(raw, &writes, now);
        (updated, Some(lines))
    }
}

} // verus!
