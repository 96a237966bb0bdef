//! Reading beads: the text handling of the `bd` CLI output, of the JSONL
//! export and of the Dolt server's files, and the merge of CLI beads with
//! the comments of the JSONL export.

use vstd::prelude::*;
use vstd::utf8::{encode_utf8, is_char_boundary};
use vstd::string::{StrSliceExecFns, StringSliceAdditionalSpecFns};
use crate::beads::{Bead, Comment, str_views};
use crate::db::{keep, CachedCounts, Database, DbState, counts_upserted};
use crate::beads::clone_comments;
use crate::epic::opt_str_view;
use crate::links::{bead_ids, collect_ids, first_with_id, lemma_ids_index};
use crate::external::{is_rfc3339_utc, json_object_keys, parse_json_object_keys, parse_yaml_string_field, yaml_string_field};
use crate::text::{
    chars_of, find_char, first_index_of, is_prefix, parse_u16, parse_u16_spec, replace_char,
    replace_char_spec, seq_lt, str_eq, str_lt, string_of, strip_prefix_str, sub_chars, trim_chars,
    trim_spec, trim_str,
};

verus! {

// ===== Paths =====

/// Dolt-only path prefix: `dolt://beads_dbname`
pub const DOLT_PATH_PREFIX: &'static str = "dolt://";

/// The database name of a `dolt://` path, or `None` for a filesystem path.
pub fn strip_dolt_prefix(path: &str) -> (r: Option<String>)
    ensures
        match r {
            Some(db) => is_prefix(DOLT_PATH_PREFIX@, path@) && db@ == path@.skip(DOLT_PATH_PREFIX@.len() as int),
            None => !is_prefix(DOLT_PATH_PREFIX@, path@),
        },
{
    strip_prefix_str(path, DOLT_PATH_PREFIX)
}

/// A path with Windows backslashes turned into forward slashes.
pub fn normalize_path(path: &str) -> (r: String)
    ensures
        r@ == replace_char_spec(path@, '\\', '/'),
{
    replace_char(path, '\\', '/')
}

// ===== The `bd list --json` output =====

/// How many bytes of the output the error of `extract_json_array` quotes.
pub open spec fn quoted_len(output: &str) -> int {
    if output.spec_bytes().len() < 200 {
        output.spec_bytes().len() as int
    } else {
        200
    }
}

/// The JSON array in CLI output that may start with non-JSON lines
/// (warnings and migration messages that `bd` prints before the JSON):
/// everything from the first `[`. Without a `[`, the error quotes the
/// first 200 bytes of the output, which must end on a character boundary.
pub fn extract_json_array(output: &str) -> (r: Result<&str, String>)
    requires
        first_index_of(output@, '[') is None ==> is_char_boundary(output.spec_bytes(), quoted_len(output)),
    ensures
        match first_index_of(output@, '[') {
            Some(k) => r matches Ok(s) && s@ == output@.skip(k),
            None => r matches Err(e) && exists|head: Seq<char>|
                e@ == "No JSON array found in output: "@ + head && encode_utf8(head)
                    == output.spec_bytes().take(quoted_len(output)),
        },
{
    let cs = chars_of(output);
    match find_char(cs.as_slice(), '[') {
        Some(k) => {
            proof {
                assert(output@.contains('['));
                let c = choose|i: int| 0 <= i < output@.len() && output@[i] == '[' && forall|j: int| 0 <= j < i ==> output@[j] != '[';
                if c < k {
                } else if c > k {
                    assert(output@[k as int] == '[');
                }
                assert(c == k);
            }
            let n = cs.len();
            let s = output.substring_char(k, n);
            proof {
                assert(s@ =~= output@.skip(k as int));
            }
            Ok(s)
        },
        None => {
            proof {
                assert(!output@.contains('[')) by {
                    if output@.contains('[') {
                        let i = choose|i: int| 0 <= i < output@.len() && output@[i] == '[';
                        assert(cs@[i] == '[');
                    }
                }
            }
            let len = output.as_bytes().len();
            let m: usize = if len < 200 {
                len
            } else {
                200
            };
            let (head, _) = output.split_at(m);
            let e = crate::text::concat_str("No JSON array found in output: ", head);
            proof {
                assert(head.spec_bytes() =~= output.spec_bytes().subrange(0, m as int));
                assert(encode_utf8(head@) == output.spec_bytes().take(quoted_len(output)));
            }
            Err(e)
        },
    }
}

// ===== Comments newer than a time =====

/// Some comment of `b` was created after `after` (string order, which
/// for fixed-width UTC timestamps is time order).
pub open spec fn has_comment_after(b: Bead, after: Seq<char>) -> bool {
    match b.comments {
        Some(cs) => exists|k: int| 0 <= k < cs@.len() && seq_lt(after, (#[trigger] cs@[k]).created_at@),
        None => false,
    }
}

/// `true` if any of the bead's comments were created after `after` (an
/// ISO 8601 timestamp string).
pub fn bead_has_comment_after(bead: &Bead, after: &str) -> (r: bool)
    ensures
        r == has_comment_after(*bead, after@),
{
    match &bead.comments {
        None => false,
        Some(cs) => {
            assert(bead.comments == Some(*cs));
            let n = cs.len();
            let mut i: usize = 0;
            while i < n
                invariant
                    n == cs@.len(),
                    bead.comments == Some(*cs),
                    i <= n,
                    forall|k: int| 0 <= k < i ==> !seq_lt(after@, (#[trigger] cs@[k]).created_at@),
                decreases n - i,
            {
                if str_lt(after, cs[i].created_at.as_str()) {
                    assert(seq_lt(after@, bead.comments->0@[i as int].created_at@));
                    return true;
                }
                i += 1;
            }
            false
        },
    }
}

// ===== JSONL records =====

/// `keys` names `_type` and not `id`.
pub open spec fn tagged_without_id(keys: Seq<Seq<char>>) -> bool {
    keys.contains("_type"@) && !keys.contains("id"@)
}

/// What parsing a line as JSON gave: not JSON, JSON but not an object, or
/// an object with these keys.
pub open spec fn parsed_view(parsed: Option<Option<Vec<String>>>) -> Option<Option<Seq<Seq<char>>>> {
    match parsed {
        Some(Some(keys)) => Some(Some(str_views(keys@))),
        Some(None) => Some(None),
        None => None,
    }
}

/// The parsed line is an object with a `_type` field and no `id`.
pub open spec fn non_issue_of(parsed: Option<Option<Seq<Seq<char>>>>) -> bool {
    match parsed {
        Some(Some(keys)) => tagged_without_id(keys),
        _ => false,
    }
}

/// The line is a JSON object with a `_type` field and no `id`: a service
/// record (such as a `bd remember` memory), not an issue.
pub open spec fn non_issue_spec(line: Seq<char>) -> bool {
    non_issue_of(json_object_keys(line))
}

/// Whether any of `keys` equals `k`.
fn has_key(keys: &Vec<String>, k: &str) -> (r: bool)
    ensures
        r == str_views(keys@).contains(k@),
{
    crate::beads::contains_string(keys, k)
}

/// Returns `true` if a JSONL line is a non-issue record that should be
/// skipped: a JSON object with `_type` but no `id`. (Real issue records may
/// carry `"_type":"issue"` too, so `_type` alone does not decide.)
pub fn is_non_issue_record(line: &str) -> (r: bool)
    ensures
        r == non_issue_spec(line@),
{
    let parsed = parse_json_object_keys(line);
    non_issue_parsed(&parsed)
}

/// Whether a parsed JSONL line is a service record: an object with `_type`
/// and no `id`.
pub fn non_issue_parsed(parsed: &Option<Option<Vec<String>>>) -> (r: bool)
    ensures
        r == non_issue_of(parsed_view(*parsed)),
{
    match parsed {
        Some(Some(keys)) => has_key(keys, "_type") && !has_key(keys, "id"),
        _ => false,
    }
}

/// What the epic recomputation makes of a JSONL line.
#[derive(Debug)]
pub enum LineKind {
    /// Not JSON: dropped.
    Invalid,
    /// A service record, a JSON object with `_type` and no `id`: kept as it
    /// is, not read as a bead.
    Service,
    /// Any other JSON value: kept, and read as a bead where it is one.
    Record,
}

/// The kind of a JSONL line for the epic recomputation.
pub open spec fn line_kind_spec(line: Seq<char>) -> LineKind {
    line_kind_of(json_object_keys(line))
}

/// The kind of a parsed JSONL line.
pub open spec fn line_kind_of(parsed: Option<Option<Seq<Seq<char>>>>) -> LineKind {
    match parsed {
        None => LineKind::Invalid,
        Some(Some(keys)) => if tagged_without_id(keys) {
            LineKind::Service
        } else {
            LineKind::Record
        },
        Some(None) => LineKind::Record,
    }
}

/// Classifies a JSONL line for the epic recomputation.
pub fn classify_line(line: &str) -> (r: LineKind)
    ensures
        r == line_kind_spec(line@),
{
    let parsed = parse_json_object_keys(line);
    classify_parsed(&parsed)
}

/// The kind of a parsed JSONL line: not JSON is dropped, an object with
/// `_type` and no `id` is a service record, anything else is a record.
pub fn classify_parsed(parsed: &Option<Option<Vec<String>>>) -> (r: LineKind)
    ensures
        r == line_kind_of(parsed_view(*parsed)),
{
    match parsed {
        None => LineKind::Invalid,
        Some(Some(keys)) => if has_key(keys, "_type") && !has_key(keys, "id") {
            LineKind::Service
        } else {
            LineKind::Record
        },
        Some(None) => LineKind::Record,
    }
}


// ===== Lines of the JSONL export =====

/// The lines of `rest` when the current line already holds `cur`.
pub open spec fn lines_from(rest: Seq<char>, cur: Seq<char>) -> Seq<Seq<char>>
    decreases rest.len(),
{
    if rest.len() == 0 {
        seq![cur]
    } else if rest[0] == '\n' {
        seq![cur] + lines_from(rest.drop_first(), seq![])
    } else {
        lines_from(rest.drop_first(), cur.push(rest[0]))
    }
}

/// The lines of `s`: the pieces between `\n` characters.
pub open spec fn lines_spec(s: Seq<char>) -> Seq<Seq<char>> {
    lines_from(s, seq![])
}

/// Holds of non-empty strings.
pub open spec fn nonempty() -> spec_fn(Seq<char>) -> bool {
    |l: Seq<char>| l.len() > 0
}

/// The lines of `s`, trimmed, without the empty ones.
pub open spec fn nonblank_lines_spec(s: Seq<char>) -> Seq<Seq<char>> {
    keep(lines_spec(s).map_values(|l: Seq<char>| trim_spec(l)), nonempty())
}

/// Holds of lines that are not service records.
pub open spec fn issue_line() -> spec_fn(Seq<char>) -> bool {
    |l: Seq<char>| !non_issue_spec(l)
}

/// The lines of `s` that are read as beads: trimmed, non-empty, and not
/// service records.
pub open spec fn issue_lines_spec(s: Seq<char>) -> Seq<Seq<char>> {
    keep(nonblank_lines_spec(s), issue_line())
}

/// Appends the trimmed `line` to `out` unless it is empty.
fn push_trimmed(out: &mut Vec<String>, line: &Vec<char>, Ghost(done): Ghost<Seq<Seq<char>>>)
    requires
        str_views(old(out)@) == keep(done.map_values(|l: Seq<char>| trim_spec(l)), nonempty()),
    ensures
        str_views(final(out)@) == keep(done.push(line@).map_values(|l: Seq<char>| trim_spec(l)), nonempty()),
{
    let t = trim_chars(line.as_slice());
    let ghost ts = done.push(line@).map_values(|l: Seq<char>| trim_spec(l));
    assert(ts.drop_last() =~= done.map_values(|l: Seq<char>| trim_spec(l)));
    assert(ts.last() == t@);
    if t.len() > 0 {
        out.push(string_of(t.as_slice()));
        assert(str_views(out@) =~= str_views(old(out)@).push(t@));
    } else {
        assert(str_views(out@) =~= str_views(old(out)@));
    }
}

/// The trimmed, non-empty lines of `contents`.
pub fn nonblank_lines(contents: &str) -> (r: Vec<String>)
    ensures
        str_views(r@) == nonblank_lines_spec(contents@),
{
    let cs = chars_of(contents);
    let n = cs.len();
    let mut out: Vec<String> = Vec::new();
    let mut cur: Vec<char> = Vec::new();
    let ghost mut done: Seq<Seq<char>> = seq![];
    let mut i: usize = 0;
    assert(cs@.skip(0) =~= cs@);
    assert(done + lines_from(cs@.skip(0), cur@) =~= lines_spec(contents@));
    while i < n
        invariant
            n == cs@.len(),
            cs@ == contents@,
            i <= n,
            done + lines_from(cs@.skip(i as int), cur@) == lines_spec(contents@),
            str_views(out@) == keep(done.map_values(|l: Seq<char>| trim_spec(l)), nonempty()),
        decreases n - i,
    {
        let c = cs[i];
        let ghost rest = cs@.skip(i as int);
        assert(rest[0] == c);
        assert(rest.drop_first() =~= cs@.skip(i + 1));
        if c == '\n' {
            push_trimmed(&mut out, &cur, Ghost(done));
            proof {
                assert(lines_from(rest, cur@) == seq![cur@] + lines_from(cs@.skip(i + 1), seq![]));
                assert(done + lines_from(rest, cur@) =~= done.push(cur@) + lines_from(cs@.skip(i + 1), seq![]));
                done = done.push(cur@);
            }
            cur = Vec::new();
            assert(cur@ =~= seq![]);
        } else {
            let ghost before = cur@;
            cur.push(c);
            assert(lines_from(rest, before) == lines_from(cs@.skip(i + 1), cur@)) by {
                assert(before.push(c) == cur@);
            }
        }
        i += 1;
    }
    push_trimmed(&mut out, &cur, Ghost(done));
    proof {
        assert(cs@.skip(n as int) =~= seq![]);
        assert(done + lines_from(cs@.skip(n as int), cur@) =~= done.push(cur@));
    }
    out
}

/// The lines of the JSONL text `contents` that are read as beads: trimmed,
/// non-empty, and not service records.
pub fn issue_lines(contents: &str) -> (r: Vec<String>)
    ensures
        str_views(r@) == issue_lines_spec(contents@),
{
    let lines = nonblank_lines(contents);
    let ghost all = str_views(lines@);
    let n = lines.len();
    let mut out: Vec<String> = Vec::new();
    let mut i: usize = 0;
    while i < n
        invariant
            n == lines@.len(),
            all == str_views(lines@),
            i <= n,
            str_views(out@) == keep(all.take(i as int), issue_line()),
        decreases n - i,
    {
        assert(all.take(i + 1).drop_last() =~= all.take(i as int));
        assert(all.take(i + 1).last() == lines@[i as int]@);
        let ghost before = out@;
        if !is_non_issue_record(lines[i].as_str()) {
            out.push(lines[i].clone());
            assert(str_views(out@) =~= str_views(before).push(lines@[i as int]@));
        }
        i += 1;
    }
    assert(all.take(n as int) =~= all);
    out
}


// ===== Merging the CLI beads with the JSONL export =====

/// The comments of an optional list, as a sequence.
pub open spec fn comments_view(o: Option<Vec<Comment>>) -> Option<Seq<Comment>> {
    match o {
        Some(v) => Some(v@),
        None => None,
    }
}

/// No bead after position `j` has the same id.
pub open spec fn last_with_id(beads: Seq<Bead>, j: int) -> bool {
    forall|k: int| j < k < beads.len() ==> beads[k].id@ != beads[j].id@
}

/// The JSONL bead that a map keyed by id keeps for `x`: the last one with that id.
pub open spec fn jsonl_entry(js: Seq<Bead>, x: Seq<char>) -> Option<int> {
    if exists|j: int| 0 <= j < js.len() && #[trigger] js[j].id@ == x {
        Some(choose|j: int| 0 <= j < js.len() && #[trigger] js[j].id@ == x && last_with_id(js, j))
    } else {
        None
    }
}

/// The CLI bead at `i` after the merge: the first CLI bead with a given id
/// takes the comments of the JSONL entry with that id, when there is one;
/// every other bead is left as it is.
pub open spec fn merged_cli_bead(cli: Seq<Bead>, js: Seq<Bead>, i: int, r: Bead) -> bool {
    &&& r == Bead { comments: r.comments, ..cli[i] }
    &&& match jsonl_entry(js, cli[i].id@) {
        Some(j) => if first_with_id(cli, i) {
            comments_view(r.comments) == comments_view(js[j].comments)
        } else {
            r.comments == cli[i].comments
        },
        None => r.comments == cli[i].comments,
    }
}

/// The JSONL bead at `j` is the entry for its id and no CLI bead has that id.
pub open spec fn unclaimed(cli: Seq<Bead>, js: Seq<Bead>, j: int) -> bool {
    last_with_id(js, j) && !bead_ids(cli).contains(js[j].id@)
}

/// The JSONL beads among the first `n` that the merge appends: the
/// unclaimed entries with a comment newer than `after`, in file order;
/// none when there is no `after`.
pub open spec fn appended_beads(cli: Seq<Bead>, js: Seq<Bead>, after: Option<Seq<char>>, n: int) -> Seq<Bead>
    decreases n,
{
    if n <= 0 {
        seq![]
    } else {
        let r = appended_beads(cli, js, after, n - 1);
        match after {
            Some(a) => if unclaimed(cli, js, n - 1) && has_comment_after(js[n - 1], a) {
                r.push(js[n - 1])
            } else {
                r
            },
            None => r,
        }
    }
}

/// Some id before position `i` equals the one at `i`.
fn seen_before(ids: &Vec<String>, i: usize) -> (r: bool)
    requires
        i < ids@.len(),
    ensures
        r == exists|k: int| 0 <= k < i && (#[trigger] ids@[k])@ == ids@[i as int]@,
{
    let mut k: usize = 0;
    while k < i
        invariant
            i < ids@.len(),
            k <= i,
            forall|q: int| 0 <= q < k ==> (#[trigger] ids@[q])@ != ids@[i as int]@,
        decreases i - k,
    {
        if str_eq(ids[k].as_str(), ids[i].as_str()) {
            return true;
        }
        k += 1;
    }
    false
}

/// The last position of `x` in `ids`.
fn last_position(ids: &Vec<String>, x: &str) -> (r: Option<usize>)
    ensures
        match r {
            Some(j) => j < ids@.len() && ids@[j as int]@ == x@ && forall|k: int|
                j < k < ids@.len() ==> (#[trigger] ids@[k])@ != x@,
            None => forall|k: int| 0 <= k < ids@.len() ==> (#[trigger] ids@[k])@ != x@,
        },
{
    let mut k: usize = ids.len();
    while k > 0
        invariant
            k <= ids@.len(),
            forall|q: int| k <= q < ids@.len() ==> (#[trigger] ids@[q])@ != x@,
        decreases k,
    {
        if str_eq(ids[k - 1].as_str(), x) {
            return Some(k - 1);
        }
        k -= 1;
    }
    None
}

/// What the `bd list` read makes of the CLI beads and the beads of the
/// JSONL export: each CLI bead takes the comments of the JSONL bead with
/// its id (the first CLI bead with an id takes the last JSONL bead with
/// it), and, for an incremental read (`updated_after` given), the JSONL
/// beads that no CLI bead claimed and that have a newer comment follow.
pub fn merge_jsonl_comments(cli: Vec<Bead>, jsonl: Vec<Bead>, updated_after: Option<&str>) -> (r: Vec<Bead>)
    ensures
        r@.len() == cli@.len() + appended_beads(cli@, jsonl@, opt_str_view(updated_after), jsonl@.len() as int).len(),
        forall|i: int| 0 <= i < cli@.len() ==> merged_cli_bead(cli@, jsonl@, i, #[trigger] r@[i]),
        r@.skip(cli@.len() as int) == appended_beads(cli@, jsonl@, opt_str_view(updated_after), jsonl@.len() as int),
{
    let cli_ids = collect_ids(&cli);
    let js_ids = collect_ids(&jsonl);
    proof {
        lemma_ids_index(cli_ids@, cli@);
        lemma_ids_index(js_ids@, jsonl@);
    }
    let ghost c0 = cli@;
    let ghost j0 = jsonl@;
    let n = cli.len();
    let mut out: Vec<Bead> = Vec::new();
    let mut i: usize = 0;
    for b in it: cli.into_iter()
        invariant
            it.seq() == c0,
            i == it.index(),
            n == c0.len(),
            j0 == jsonl@,
            cli_ids@.len() == c0.len(),
            forall|k: int| 0 <= k < cli_ids@.len() ==> (#[trigger] cli_ids@[k])@ == c0[k].id@,
            js_ids@.len() == j0.len(),
            forall|k: int| 0 <= k < js_ids@.len() ==> (#[trigger] js_ids@[k])@ == j0[k].id@,
            out@.len() == i,
            forall|q: int| 0 <= q < i ==> merged_cli_bead(c0, j0, q, #[trigger] out@[q]),
    {
        assert(b == c0[i as int]);
        let mut b = b;
        let seen = seen_before(&cli_ids, i);
        proof {
            if seen {
                let k = choose|k: int| 0 <= k < i && (#[trigger] cli_ids@[k])@ == cli_ids@[i as int]@;
                assert(c0[k].id@ == c0[i as int].id@);
                assert(!first_with_id(c0, i as int));
            } else {
                assert forall|k: int| 0 <= k < i implies c0[k].id@ != c0[i as int].id@ by {
                    assert(cli_ids@[k]@ != cli_ids@[i as int]@);
                }
                assert(first_with_id(c0, i as int));
            }
        }
        let pos = last_position(&js_ids, b.id.as_str());
        proof {
            match pos {
                Some(j) => {
                    assert(j0[j as int].id@ == b.id@);
                    assert(last_with_id(j0, j as int)) by {
                        assert forall|k: int| j < k < j0.len() implies j0[k].id@ != j0[j as int].id@ by {
                            assert(js_ids@[k]@ != b.id@);
                        }
                    }
                    let c = choose|c: int| 0 <= c < j0.len() && #[trigger] j0[c].id@ == b.id@ && last_with_id(j0, c);
                    if c < j {
                        assert(j0[j as int].id@ == j0[c].id@);
                    } else if c > j {
                        assert(js_ids@[c]@ != b.id@);
                    }
                    assert(jsonl_entry(j0, b.id@) == Some(j as int));
                },
                None => {
                    assert forall|c: int| 0 <= c < j0.len() implies #[trigger] j0[c].id@ != b.id@ by {
                        assert(js_ids@[c]@ != b.id@);
                    }
                    assert(jsonl_entry(j0, b.id@) == None::<int>);
                },
            }
        }
        if !seen {
            if let Some(j) = pos {
                b.comments = clone_comments(&jsonl[j].comments);
                assert(comments_view(b.comments) == comments_view(j0[j as int].comments));
            }
        }
        assert(merged_cli_bead(c0, j0, i as int, b));
        out.push(b);
        i += 1;
    }
    let ghost merged = out@;
    let m = jsonl.len();
    match updated_after {
        None => {
            assert forall|k: int| 0 <= k <= m implies appended_beads(c0, j0, None, k) == Seq::<Bead>::empty() by {
                lemma_appended_none(c0, j0, k);
            }
            assert(out@.skip(n as int) =~= Seq::<Bead>::empty());
            out
        },
        Some(after) => {
            let mut flags: Vec<bool> = Vec::new();
            let mut j: usize = 0;
            while j < m
                invariant
                    m == j0.len(),
                    j0 == jsonl@,
                    js_ids@.len() == j0.len(),
                    forall|k: int| 0 <= k < js_ids@.len() ==> (#[trigger] js_ids@[k])@ == j0[k].id@,
                    cli_ids@.len() == c0.len(),
                    forall|k: int| 0 <= k < cli_ids@.len() ==> (#[trigger] cli_ids@[k])@ == c0[k].id@,
                    j <= m,
                    flags@.len() == j,
                    forall|k: int| 0 <= k < j ==> (#[trigger] flags@[k]) == unclaimed(c0, j0, k),
                decreases m - j,
            {
                let later = last_position(&js_ids, js_ids[j].as_str());
                let is_last = match later {
                    Some(p) => p == j,
                    None => false,
                };
                let claimed = crate::beads::contains_string(&cli_ids, js_ids[j].as_str());
                proof {
                    assert(str_views(cli_ids@) =~= bead_ids(c0)) by {
                        assert forall|k: int| 0 <= k < c0.len() implies str_views(cli_ids@)[k] == bead_ids(c0)[k] by {
                            assert(cli_ids@[k]@ == c0[k].id@);
                        }
                    }
                    match later {
                        Some(p) => {
                            if p == j {
                                assert forall|k: int| j < k < j0.len() implies j0[k].id@ != j0[j as int].id@ by {
                                    assert(js_ids@[k]@ != js_ids@[j as int]@);
                                }
                            } else {
                                assert(p > j || js_ids@[j as int]@ != js_ids@[j as int]@);
                                assert(j0[p as int].id@ == j0[j as int].id@);
                            }
                        },
                        None => {
                            assert(js_ids@[j as int]@ != js_ids@[j as int]@);
                        },
                    }
                }
                flags.push(is_last && !claimed);
                j += 1;
            }
            let ghost a = after@;
            let mut k: usize = 0;
            for b in it: jsonl.into_iter()
                invariant
                    it.seq() == j0,
                    k == it.index(),
                    m == j0.len(),
                    flags@.len() == m,
                    forall|q: int| 0 <= q < m ==> (#[trigger] flags@[q]) == unclaimed(c0, j0, q),
                    a == after@,
                    out@.len() >= n,
                    out@.take(n as int) == merged,
                    out@.skip(n as int) == appended_beads(c0, j0, Some(a), k as int),
            {
                assert(b == j0[k as int]);
                let ghost before = out@;
                if flags[k] && bead_has_comment_after(&b, after) {
                    out.push(b);
                    assert(out@.take(n as int) =~= before.take(n as int));
                    assert(out@.skip(n as int) =~= before.skip(n as int).push(j0[k as int]));
                }
                k += 1;
            }
            proof {
                assert(merged =~= out@.take(n as int));
                assert forall|i: int| 0 <= i < c0.len() implies merged_cli_bead(c0, j0, i, #[trigger] out@[i]) by {
                    assert(out@[i] == out@.take(n as int)[i]);
                }
            }
            out
        },
    }
}

proof fn lemma_appended_none(cli: Seq<Bead>, js: Seq<Bead>, n: int)
    ensures
        appended_beads(cli, js, None, n) == Seq::<Bead>::empty(),
    decreases n,
{
    if n > 0 {
        lemma_appended_none(cli, js, n - 1);
    }
}


// ===== Bead counts per status =====

/// How many of the beads have status `st`.
pub open spec fn status_count(beads: Seq<Bead>, st: Seq<char>) -> nat
    decreases beads.len(),
{
    if beads.len() == 0 {
        0
    } else {
        status_count(beads.drop_last(), st) + if beads.last().status@ == st {
            1nat
        } else {
            0nat
        }
    }
}

/// `c` holds the counts that a read of `beads` from `source` caches at time `now`.
pub open spec fn counts_of_beads(c: CachedCounts, beads: Seq<Bead>, source: Seq<char>, now: String) -> bool {
    &&& c.open == status_count(beads, "open"@)
    &&& c.in_progress == status_count(beads, "in_progress"@)
    &&& c.inreview == status_count(beads, "inreview"@)
    &&& c.closed == status_count(beads, "closed"@)
    &&& c.data_source matches Some(d) && d@ == source
    &&& c.updated_at == now
}

proof fn lemma_status_count_le(beads: Seq<Bead>, st: Seq<char>)
    ensures
        status_count(beads, st) <= beads.len(),
    decreases beads.len(),
{
    if beads.len() > 0 {
        lemma_status_count_le(beads.drop_last(), st);
    }
}

/// The number of beads with status `open`, `in_progress`, `inreview` and
/// `closed`, in that order.
pub fn tally_statuses(beads: &[Bead]) -> (r: (i64, i64, i64, i64))
    requires
        beads@.len() <= i64::MAX,
    ensures
        r.0 == status_count(beads@, "open"@),
        r.1 == status_count(beads@, "in_progress"@),
        r.2 == status_count(beads@, "inreview"@),
        r.3 == status_count(beads@, "closed"@),
{
    proof {
        reveal_strlit("open");
        reveal_strlit("in_progress");
        reveal_strlit("inreview");
        reveal_strlit("closed");
    }
    let n = beads.len();
    let mut open: i64 = 0;
    let mut in_progress: i64 = 0;
    let mut inreview: i64 = 0;
    let mut closed: i64 = 0;
    let mut i: usize = 0;
    while i < n
        invariant
            n == beads@.len(),
            n <= i64::MAX,
            i <= n,
            "open"@.len() == 4,
            "in_progress"@.len() == 11,
            "inreview"@.len() == 8,
            "closed"@.len() == 6,
            open == status_count(beads@.take(i as int), "open"@),
            in_progress == status_count(beads@.take(i as int), "in_progress"@),
            inreview == status_count(beads@.take(i as int), "inreview"@),
            closed == status_count(beads@.take(i as int), "closed"@),
        decreases n - i,
    {
        let ghost t = beads@.take(i + 1);
        proof {
            assert(t.drop_last() =~= beads@.take(i as int));
            assert(t.last() == beads@[i as int]);
            lemma_status_count_le(beads@.take(i as int), "open"@);
            lemma_status_count_le(beads@.take(i as int), "in_progress"@);
            lemma_status_count_le(beads@.take(i as int), "inreview"@);
            lemma_status_count_le(beads@.take(i as int), "closed"@);
        }
        let st = beads[i].status.as_str();
        if str_eq(st, "open") {
            open += 1;
        } else if str_eq(st, "in_progress") {
            in_progress += 1;
        } else if str_eq(st, "inreview") {
            inreview += 1;
        } else if str_eq(st, "closed") {
            closed += 1;
        }
        i += 1;
    }
    assert(beads@.take(n as int) =~= beads@);
    (open, in_progress, inreview, closed)
}

/// Project `k` is the one a lookup of `path` finds: its path is `path` or
/// `path` with `/` replaced by `\`.
pub open spec fn path_matches(p: Seq<char>, path: Seq<char>) -> bool {
    p == path || p == replace_char_spec(path, '/', '\\')
}

/// Project `k` of `s` is the first whose path matches `path`.
pub open spec fn first_path_match(s: DbState, path: Seq<char>, k: int) -> bool {
    &&& 0 <= k < s.projects.len()
    &&& path_matches(s.projects[k].path@, path)
    &&& forall|j: int| 0 <= j < k ==> !path_matches((#[trigger] s.projects[j]).path@, path)
}

/// What caching the counts of `beads` read from `source` for the project
/// at `path` at time `now` does to the store: when some project has that
/// path (in either form), the counts of the first such project are set;
/// else nothing changes.
pub open spec fn counts_cached(s: DbState, t: DbState, path: Seq<char>, beads: Seq<Bead>, source: Seq<char>, now: String) -> bool {
    if exists|k: int| 0 <= k < s.projects.len() && path_matches((#[trigger] s.projects[k]).path@, path) {
        exists|k: int, c: CachedCounts|
            #[trigger] first_path_match(s, path, k) && #[trigger] counts_of_beads(c, beads, source, now) && {
                &&& t.projects == s.projects
                &&& t.tags == s.tags
                &&& t.links == s.links
                &&& counts_upserted(s.counts, t.counts, s.projects[k].id@, c)
            }
    } else {
        t == s
    }
}

/// Caches the per-status counts of `beads`, read from `data_source`, for
/// the project stored at `project_path`, stamped `now`. Nothing changes
/// when no project has that path.
pub fn upsert_counts_cache_at(db: &mut Database, project_path: &str, data_source: &str, beads: &[Bead], now: String)
    requires
        old(db).wf(),
        beads@.len() <= i64::MAX,
    ensures
        final(db).wf(),
        counts_cached(old(db)@, final(db)@, project_path@, beads@, data_source@, now),
{
    let ghost s = db@;
    let project = match db.get_project_by_path(project_path) {
        Ok(Some(p)) => p,
        _ => {
            return;
        },
    };
    let ghost k = choose|k: int|
        0 <= k < s.projects.len() && #[trigger] s.projects[k] == project && (project.path@ == project_path@
            || project.path@ == replace_char_spec(project_path@, '/', '\\')) && forall|j: int|
            0 <= j < k ==> (#[trigger] s.projects[j]).path@ != project_path@
                && s.projects[j].path@ != replace_char_spec(project_path@, '/', '\\');
    let (open, in_progress, inreview, closed) = tally_statuses(beads);
    let counts = CachedCounts {
        open,
        in_progress,
        inreview,
        closed,
        data_source: Some(String::from_str(data_source)),
        updated_at: now,
    };
    proof {
        assert(s.projects[k] == project);
        assert(crate::db::has_project(s, project.id@));
    }
    let _ = db.upsert_cached_counts(project.id.as_str(), &counts);
    proof {
        assert(first_path_match(s, project_path@, k));
        assert(counts_of_beads(counts, beads@, data_source@, now));
    }
}

/// Caches the per-status counts of `beads` for the project stored at
/// `project_path`, stamped with the current time.
pub fn upsert_counts_cache(db: &mut Database, project_path: &str, data_source: &str, beads: &[Bead])
    requires
        old(db).wf(),
        beads@.len() <= i64::MAX,
    ensures
        final(db).wf(),
        exists|now: String| is_rfc3339_utc(now@) && counts_cached(old(db)@, final(db)@, project_path@, beads@, data_source@, now),
{
    let now = crate::external::now_rfc3339();
    upsert_counts_cache_at(db, project_path, data_source, beads, now);
}

// ===== The Dolt server's port =====

/// The port written in a port file: its trimmed text as a `u16`.
pub open spec fn port_file_spec(content: Seq<char>) -> Option<u16> {
    parse_u16_spec(trim_spec(content))
}

/// The port in the text of a port file.
pub fn port_from_file(content: &str) -> (r: Option<u16>)
    ensures
        r == port_file_spec(content@),
{
    let cs = chars_of(content);
    let t = trim_chars(cs.as_slice());
    parse_u16(t.as_slice())
}

/// `p` occurs in `s` at position `i`.
pub open spec fn occurs_at(s: Seq<char>, p: Seq<char>, i: int) -> bool {
    0 <= i && i + p.len() <= s.len() && s.subrange(i, i + p.len()) == p
}

/// The position of the first occurrence of `p` in `s`, if any.
pub open spec fn first_occurrence(s: Seq<char>, p: Seq<char>) -> Option<int> {
    if exists|i: int| occurs_at(s, p, i) {
        Some(choose|i: int| occurs_at(s, p, i) && forall|j: int| 0 <= j < i ==> !occurs_at(s, p, j))
    } else {
        None
    }
}

/// Finds the first occurrence of `p` in `s`.
fn find_str(s: &[char], p: &[char]) -> (r: Option<usize>)
    ensures
        match r {
            Some(i) => occurs_at(s@, p@, i as int) && forall|j: int| 0 <= j < i ==> !occurs_at(s@, p@, j),
            None => forall|j: int| !occurs_at(s@, p@, j),
        },
{
    if p.len() > s.len() {
        return None;
    }
    if p.len() == 0 {
        assert(s@.subrange(0, 0) =~= p@);
        return Some(0);
    }
    let last = s.len() - p.len();
    let mut i: usize = 0;
    while i <= last
        invariant
            last == s@.len() - p@.len(),
            p@.len() <= s@.len(),
            p@.len() >= 1,
            i <= last + 1,
            forall|j: int| 0 <= j < i ==> !occurs_at(s@, p@, j),
        decreases last + 1 - i,
    {
        let rest = sub_chars(s, i, s.len());
        if crate::text::starts_with_chars(rest.as_slice(), p) {
            assert(s@.subrange(i as int, i + p@.len()) =~= rest@.subrange(0, p@.len() as int));
            return Some(i);
        }
        assert(!occurs_at(s@, p@, i as int)) by {
            if occurs_at(s@, p@, i as int) {
                assert(s@.subrange(i as int, i + p@.len()) =~= rest@.subrange(0, p@.len() as int));
            }
        }
        i += 1;
    }
    None
}

/// The marker that precedes the port in the Dolt server's log.
pub open spec fn log_marker() -> Seq<char> {
    "HP=\"127.0.0.1:"@
}

/// The port in a Dolt server log: the digits between the first
/// `HP="127.0.0.1:` and the next `"`.
pub open spec fn port_log_spec(content: Seq<char>) -> Option<u16> {
    match first_occurrence(content, log_marker()) {
        Some(k) => {
            let after = content.skip(k + log_marker().len());
            match first_index_of(after, '"') {
                Some(e) => parse_u16_spec(after.take(e)),
                None => None,
            }
        },
        None => None,
    }
}

/// The port in the text of a Dolt server log.
pub fn port_from_log(content: &str) -> (r: Option<u16>)
    ensures
        r == port_log_spec(content@),
{
    let cs = chars_of(content);
    let marker = chars_of("HP=\"127.0.0.1:");
    match find_str(cs.as_slice(), marker.as_slice()) {
        None => {
            proof {
                assert(!exists|i: int| occurs_at(content@, log_marker(), i));
            }
            None
        },
        Some(k) => {
            proof {
                let c = choose|i: int| occurs_at(content@, log_marker(), i) && forall|j: int| 0 <= j < i ==> !occurs_at(content@, log_marker(), j);
                if c < k {
                } else if c > k {
                }
                assert(c == k);
            }
            let total = cs.len();
            assert(occurs_at(cs@, marker@, k as int));
            let start = k + marker.len();
            let after = sub_chars(cs.as_slice(), start, total);
            assert(after@ =~= content@.skip(k + log_marker().len()));
            match find_char(after.as_slice(), '"') {
                None => {
                    proof {
                        assert(!after@.contains('"')) by {
                            if after@.contains('"') {
                                let q = choose|q: int| 0 <= q < after@.len() && after@[q] == '"';
                            }
                        }
                    }
                    None
                },
                Some(e) => {
                    proof {
                        assert(after@.contains('"')) by {
                            assert(after@[e as int] == '"');
                        }
                        let c = choose|q: int| 0 <= q < after@.len() && after@[q] == '"' && forall|j: int| 0 <= j < q ==> after@[j] != '"';
                        if c < e {
                        } else if c > e {
                            assert(after@[e as int] == '"');
                        }
                        assert(c == e);
                    }
                    let digits = sub_chars(after.as_slice(), 0, e);
                    assert(digits@ =~= after@.take(e as int));
                    parse_u16(digits.as_slice())
                },
            }
        },
    }
}

/// The Dolt server's port from the texts of its port file and its log,
/// where they could be read: the port file wins when it holds a port.
pub open spec fn dolt_port_spec(port_file: Option<Seq<char>>, log_file: Option<Seq<char>>) -> Option<u16> {
    let from_file = match port_file {
        Some(c) => port_file_spec(c),
        None => None,
    };
    match from_file {
        Some(p) => Some(p),
        None => match log_file {
            Some(c) => port_log_spec(c),
            None => None,
        },
    }
}

/// Resolves the Dolt server port from the texts of `dolt-server.port` and
/// `dolt-server.log`, where they could be read.
pub fn dolt_port_from(port_file: Option<&str>, log_file: Option<&str>) -> (r: Option<u16>)
    ensures
        r == dolt_port_spec(opt_str_view(port_file), opt_str_view(log_file)),
{
    if let Some(c) = port_file {
        if let Some(p) = port_from_file(c) {
            return Some(p);
        }
    }
    match log_file {
        Some(c) => port_from_log(c),
        None => None,
    }
}

// ===== The sync branch of the JSONL export =====

/// The branch that a `sync-branch` value names: the value trimmed, when
/// it is not blank.
pub open spec fn branch_of(field: Option<Seq<char>>) -> Option<Seq<char>> {
    match field {
        Some(b) => if trim_spec(b).len() > 0 {
            Some(trim_spec(b))
        } else {
            None
        },
        None => None,
    }
}

/// The branch named by `sync-branch` in a `.beads/config.yaml` text,
/// trimmed, when it is a non-blank string.
pub open spec fn sync_branch_spec(config: Seq<char>) -> Option<Seq<char>> {
    branch_of(yaml_string_field(config, "sync-branch"@))
}

/// The `sync-branch` of a `.beads/config.yaml` text, trimmed; `None` when
/// the YAML does not parse or the key is missing, blank or not a string.
pub fn sync_branch(config: &str) -> (r: Option<String>)
    ensures
        opt_view_str(r) == sync_branch_spec(config@),
{
    let field = parse_yaml_string_field(config, "sync-branch");
    branch_from_field(field)
}

/// The branch that a `sync-branch` value names, trimmed; `None` when there
/// is no value or it is blank.
pub fn branch_from_field(field: Option<String>) -> (r: Option<String>)
    ensures
        opt_view_str(r) == branch_of(opt_view_str(field)),
{
    match field {
        None => None,
        Some(b) => {
            let t = trim_str(b.as_str());
            if !t.as_str().is_empty() {
                Some(t)
            } else {
                None
            }
        },
    }
}

/// The view of an optional string.
pub open spec fn opt_view_str(o: Option<String>) -> Option<Seq<char>> {
    match o {
        Some(s) => Some(s@),
        None => None,
    }
}


// ===== The `bd list` call =====

/// The arguments of the full listing: `list --json --all`.
pub open spec fn full_list_args() -> Seq<Seq<char>> {
    seq!["list"@, "--json"@, "--all"@]
}

/// The `bd list` argument lists that a CLI read tries, in order: with a
/// time, the incremental listing (`--updated-after=` the time) and then,
/// should it fail, the full listing; without one, the full listing.
pub open spec fn list_attempts_spec(updated_after: Option<Seq<char>>) -> Seq<Seq<Seq<char>>> {
    match updated_after {
        Some(t) => seq![full_list_args().push("--updated-after="@ + t), full_list_args()],
        None => seq![full_list_args()],
    }
}

/// The arguments of the full listing.
fn full_list() -> (r: Vec<String>)
    ensures
        str_views(r@) == full_list_args(),
{
    let mut r: Vec<String> = Vec::new();
    r.push(String::from_str("list"));
    r.push(String::from_str("--json"));
    r.push(String::from_str("--all"));
    assert(str_views(r@) =~= full_list_args());
    r
}

/// The `bd list` argument lists that a CLI read tries, in order; the
/// first that succeeds gives the beads, and the error of the last is the
/// read's error.
pub fn list_attempts(updated_after: Option<&str>) -> (r: Vec<Vec<String>>)
    ensures
        r@.len() == list_attempts_spec(opt_str_view(updated_after)).len(),
        forall|i: int| 0 <= i < r@.len() ==> str_views((#[trigger] r@[i])@) == list_attempts_spec(
            opt_str_view(updated_after),
        )[i],
{
    let mut r: Vec<Vec<String>> = Vec::new();
    if let Some(since) = updated_after {
        let mut incremental = full_list();
        let ghost before = incremental@;
        incremental.push(crate::text::concat_str("--updated-after=", since));
        assert(str_views(incremental@) =~= str_views(before).push("--updated-after="@ + since@));
        r.push(incremental);
    }
    r.push(full_list());
    r
}

} // verus!
