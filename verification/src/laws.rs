//! Properties of the library as a whole: what holds across operations and
//! of every result, stated over the specifications the operations meet.

use vstd::prelude::*;
use crate::beads::{Bead, opt_view, str_views};
use crate::db::{lemma_keep_unique, migrations_spec, 
    UpdateProjectInput, update_project_outcome, CachedCounts, CreateProjectInput, DbState, Project, archive_outcome, counts_of, counts_upserted,
    create_project_outcome, has_link, has_project, has_tag, is_project_listing, is_tag_listing, keep,
    lemma_keep_member, link_added, listed, not_link, not_of_project, counts_not_of, project_pos,
    tag_of, touch_outcome, unarchive_outcome, without_project, wf_state,
};
use crate::epic::{child_of, epic_status_spec, epic_target, epic_update_of, epic_updates_spec, lemma_inferred_children_member, status_of};
use crate::beads::{LegacyDependency, RawDependencies, UpdateBeadRequest};
use crate::requests::{ApiError, update_checked};
use crate::text::trim_spec;
use crate::text::{lemma_lt_irreflexive, seq_lt};
use vstd::seq_lib::lemma_no_dup_in_concat;
use crate::links::{
    last_dot, is_pc, legacy_parent, has_pc_dep_to, bead_ids, children_ok, final_parent, has_children, inferred_children, inferred_for_id,
    linked_child, links_to, parent_candidate, post_processed, stage_parent, first_with_id, inferable,
};
use crate::sources::{appended_beads, has_comment_after, last_with_id, unclaimed, counts_cached, counts_of_beads, first_path_match, path_matches, issue_line, issue_lines_spec, non_issue_spec, nonblank_lines_spec, nonempty, status_count};

verus! {

// ===== Epic status =====

/// An epic's status is never set to `closed` from its children: closing
/// an epic is left to the user.
pub proof fn law_epic_status_never_closed(children: Seq<Seq<char>>)
    ensures
        epic_status_spec(children) != Some("closed"@),
{
    reveal_strlit("closed");
    reveal_strlit("in_progress");
    reveal_strlit("inreview");
    reveal_strlit("open");
    assert("closed"@.len() != "in_progress"@.len());
    assert("closed"@.len() != "inreview"@.len());
    assert("closed"@.len() != "open"@.len());
}

/// A recomputed epic update only ever touches an epic that is not closed,
/// gives it a status other than the one it has, and never closes it.
pub proof fn law_epic_update_changes_open_epic(beads: Seq<Bead>, b: Bead)
    ensures
        epic_update_of(beads, b) matches Some(ns) ==> {
            &&& opt_view(b.issue_type) == Some("epic"@)
            &&& b.status@ != "closed"@
            &&& ns != b.status@
            &&& ns != "closed"@
        },
{
    reveal_strlit("closed");
    reveal_strlit("in_progress");
    reveal_strlit("inreview");
    reveal_strlit("open");
    assert("closed"@.len() != "in_progress"@.len());
    assert("closed"@.len() != "inreview"@.len());
    assert("closed"@.len() != "open"@.len());
}

/// `after` is `beads` with the recomputed epic statuses applied: every
/// field but the status is kept, and each bead with an update takes its
/// new status.
pub open spec fn statuses_applied(beads: Seq<Bead>, after: Seq<Bead>) -> bool {
    &&& after.len() == beads.len()
    &&& forall|i: int|
        0 <= i < beads.len() ==> {
            &&& #[trigger] after[i] == Bead { status: after[i].status, ..beads[i] }
            &&& after[i].status@ == match epic_update_of(beads, beads[i]) {
                Some(ns) => ns,
                None => beads[i].status@,
            }
        }
}

/// No bead that is some bead's child is an epic.
pub open spec fn no_epic_children(beads: Seq<Bead>) -> bool {
    forall|i: int, e: Seq<char>|
        0 <= i < beads.len() && #[trigger] child_of(beads, e, beads[i].id@) ==> opt_view(beads[i].issue_type) != Some(
            "epic"@,
        )
}

proof fn lemma_status_of_same(a: Seq<Bead>, b: Seq<Bead>, x: Seq<char>)
    requires
        a.len() == b.len(),
        forall|i: int| 0 <= i < a.len() ==> (#[trigger] a[i]).id@ == b[i].id@,
        forall|i: int| 0 <= i < a.len() && (#[trigger] a[i]).id@ == x ==> a[i].status@ == b[i].status@,
    ensures
        status_of(a, x) == status_of(b, x),
    decreases a.len(),
{
    if a.len() > 0 {
        assert(a.last() == a[a.len() - 1] && b.last() == b[b.len() - 1]);
        let a0 = a.drop_last();
        let b0 = b.drop_last();
        assert forall|i: int| 0 <= i < a0.len() implies (#[trigger] a0[i]).id@ == b0[i].id@ by {
            assert(a0[i] == a[i] && b0[i] == b[i]);
        }
        assert forall|i: int| 0 <= i < a0.len() && (#[trigger] a0[i]).id@ == x implies a0[i].status@ == b0[i].status@ by {
            assert(a0[i] == a[i] && b0[i] == b[i]);
        }
        lemma_status_of_same(a0, b0, x);
    }
}

proof fn lemma_no_updates(beads: Seq<Bead>, prefix: Seq<Bead>)
    requires
        forall|k: int| 0 <= k < prefix.len() ==> epic_update_of(beads, #[trigger] prefix[k]) is None,
    ensures
        epic_updates_spec(beads, prefix) == Seq::<(Seq<char>, Seq<char>)>::empty(),
    decreases prefix.len(),
{
    if prefix.len() > 0 {
        let init = prefix.drop_last();
        assert forall|k: int| 0 <= k < init.len() implies epic_update_of(beads, #[trigger] init[k]) is None by {
            assert(init[k] == prefix[k]);
        }
        lemma_no_updates(beads, init);
        assert(prefix.last() == prefix[prefix.len() - 1]);
    }
}

/// Once the recomputed epic statuses are applied, recomputing again
/// changes nothing, provided no child is itself an epic.
pub proof fn law_recompute_settles(beads: Seq<Bead>, after: Seq<Bead>)
    requires
        statuses_applied(beads, after),
        no_epic_children(beads),
    ensures
        epic_updates_spec(after, after) == Seq::<(Seq<char>, Seq<char>)>::empty(),
{
    reveal_strlit("closed");
    reveal_strlit("in_progress");
    reveal_strlit("inreview");
    reveal_strlit("open");
    assert(bead_ids(after) =~= bead_ids(beads)) by {
        assert forall|i: int| 0 <= i < beads.len() implies bead_ids(after)[i] == bead_ids(beads)[i] by {
            assert(after[i].id == beads[i].id);
        }
    }
    let all = bead_ids(beads);
    // Children do not depend on statuses.
    assert forall|e: Seq<char>, x: Seq<char>| #[trigger] child_of(after, e, x) == child_of(beads, e, x) by {
        assert forall|i: int| 0 <= i < beads.len() implies links_to(#[trigger] after[i], e) == links_to(beads[i], e)
            && inferable(after[i], all) == inferable(beads[i], all) by {
            assert(after[i].dependencies == beads[i].dependencies);
            assert(after[i].parent_id == beads[i].parent_id);
            assert(after[i].id == beads[i].id);
        }
        if linked_child(after, e, x) {
            let i = choose|i: int| 0 <= i < after.len() && #[trigger] after[i].id@ == x && links_to(after[i], e);
            assert(beads[i].id@ == x && links_to(beads[i], e));
        }
        if linked_child(beads, e, x) {
            let i = choose|i: int| 0 <= i < beads.len() && #[trigger] beads[i].id@ == x && links_to(beads[i], e);
            assert(after[i].id@ == x && links_to(after[i], e));
        }
        if exists|i: int|
            0 <= i < after.len() && #[trigger] after[i].id@ == x && inferable(after[i], bead_ids(after))
                && parent_candidate(x) == Some(e) {
            let i = choose|i: int|
                0 <= i < after.len() && #[trigger] after[i].id@ == x && inferable(after[i], bead_ids(after))
                    && parent_candidate(x) == Some(e);
            assert(beads[i].id@ == x && inferable(beads[i], all));
        }
        if exists|i: int|
            0 <= i < beads.len() && #[trigger] beads[i].id@ == x && inferable(beads[i], all) && parent_candidate(x)
                == Some(e) {
            let i = choose|i: int|
                0 <= i < beads.len() && #[trigger] beads[i].id@ == x && inferable(beads[i], all) && parent_candidate(x)
                    == Some(e);
            assert(after[i].id@ == x && inferable(after[i], bead_ids(after)));
        }
    }
    // A child's status does not change.
    assert forall|e: Seq<char>, x: Seq<char>| #[trigger] child_of(beads, e, x) implies status_of(after, x) == status_of(
        beads,
        x,
    ) by {
        assert forall|i: int| 0 <= i < after.len() implies (#[trigger] after[i]).id@ == beads[i].id@ by {}
        assert forall|i: int| 0 <= i < after.len() && (#[trigger] after[i]).id@ == x implies after[i].status@
            == beads[i].status@ by {
            assert(child_of(beads, e, beads[i].id@));
            assert(opt_view(beads[i].issue_type) != Some("epic"@));
        }
        lemma_status_of_same(after, beads, x);
    }
    // So no epic's target changes.
    assert forall|e: Seq<char>| #[trigger] epic_target(after, e) == epic_target(beads, e) by {
        assert((exists|x: Seq<char>| child_of(after, e, x)) == (exists|x: Seq<char>| child_of(beads, e, x))) by {
            if exists|x: Seq<char>| child_of(after, e, x) {
                let x = choose|x: Seq<char>| child_of(after, e, x);
                assert(child_of(beads, e, x));
            }
            if exists|x: Seq<char>| child_of(beads, e, x) {
                let x = choose|x: Seq<char>| child_of(beads, e, x);
                assert(child_of(after, e, x));
            }
        }
        assert((exists|x: Seq<char>| child_of(after, e, x) && status_of(after, x) == Some("in_progress"@)) == (exists|
            x: Seq<char>,
        | child_of(beads, e, x) && status_of(beads, x) == Some("in_progress"@))) by {
            if exists|x: Seq<char>| child_of(after, e, x) && status_of(after, x) == Some("in_progress"@) {
                let x = choose|x: Seq<char>| child_of(after, e, x) && status_of(after, x) == Some("in_progress"@);
                assert(child_of(beads, e, x));
            }
            if exists|x: Seq<char>| child_of(beads, e, x) && status_of(beads, x) == Some("in_progress"@) {
                let x = choose|x: Seq<char>| child_of(beads, e, x) && status_of(beads, x) == Some("in_progress"@);
                assert(child_of(after, e, x));
            }
        }
        assert((forall|x: Seq<char>|
            child_of(after, e, x) ==> status_of(after, x) == Some("inreview"@) || status_of(after, x) == Some(
                "closed"@,
            )) == (forall|x: Seq<char>|
            child_of(beads, e, x) ==> status_of(beads, x) == Some("inreview"@) || status_of(beads, x) == Some(
                "closed"@,
            ))) by {
            assert forall|x: Seq<char>| child_of(after, e, x) == child_of(beads, e, x) by {}
        }
        assert((forall|x: Seq<char>| child_of(after, e, x) ==> status_of(after, x) == Some("open"@)) == (forall|
            x: Seq<char>,
        | child_of(beads, e, x) ==> status_of(beads, x) == Some("open"@))) by {
            assert forall|x: Seq<char>| child_of(after, e, x) == child_of(beads, e, x) by {}
        }
    }
    // No bead is updated again.
    assert forall|k: int| 0 <= k < after.len() implies epic_update_of(after, #[trigger] after[k]) is None by {
        let b = beads[k];
        let a = after[k];
        assert(a.issue_type == b.issue_type && a.id == b.id);
        law_epic_update_changes_open_epic(beads, b);
        assert(epic_target(after, b.id@) == epic_target(beads, b.id@));
    }
    lemma_no_updates(after, after);
}

// ===== Epic children by dotted id =====

proof fn lemma_status_of_unique(beads: Seq<Bead>, j: int)
    requires
        0 <= j < beads.len(),
        forall|k: int| 0 <= k < beads.len() && k != j ==> (#[trigger] beads[k]).id@ != beads[j].id@,
    ensures
        status_of(beads, beads[j].id@) == Some(beads[j].status@),
    decreases beads.len(),
{
    if j < beads.len() - 1 {
        let init = beads.drop_last();
        assert(beads.last() == beads[beads.len() - 1]);
        assert forall|k: int| 0 <= k < init.len() && k != j implies (#[trigger] init[k]).id@ != init[j].id@ by {
            assert(init[k] == beads[k]);
        }
        lemma_status_of_unique(init, j);
        assert(init[j] == beads[j]);
    } else {
        assert(beads.last() == beads[j]);
    }
}

proof fn lemma_update_listed(beads: Seq<Bead>, prefix: Seq<Bead>, i: int, ns: Seq<char>)
    requires
        0 <= i < prefix.len(),
        epic_update_of(beads, prefix[i]) == Some(ns),
    ensures
        epic_updates_spec(beads, prefix).contains((prefix[i].id@, ns)),
    decreases prefix.len(),
{
    let r = epic_updates_spec(beads, prefix);
    if i == prefix.len() - 1 {
        assert(prefix.last() == prefix[i]);
        assert(r.last() == (prefix[i].id@, ns));
        assert(r[r.len() - 1] == (prefix[i].id@, ns));
    } else {
        let init = prefix.drop_last();
        assert(init[i] == prefix[i]);
        lemma_update_listed(beads, init, i, ns);
        let r0 = epic_updates_spec(beads, init);
        let q = choose|q: int| 0 <= q < r0.len() && r0[q] == (prefix[i].id@, ns);
        assert(r[q] == r0[q]);
    }
}

/// A bead with no parent and no dependencies whose id is an epic's id, a
/// `.` and a suffix without dots, is a child of that epic: when it is in
/// progress (and is the only bead with that id), an open epic that is not
/// in progress is moved to `in_progress` by the recomputation.
pub proof fn law_dotted_child_moves_epic(beads: Seq<Bead>, i: int, j: int, suffix: Seq<char>)
    requires
        0 <= i < beads.len(),
        0 <= j < beads.len(),
        opt_view(beads[i].issue_type) == Some("epic"@),
        beads[i].status@ != "closed"@,
        beads[i].status@ != "in_progress"@,
        !suffix.contains('.'),
        beads[j].id@ == beads[i].id@ + seq!['.'] + suffix,
        beads[j].parent_id is None,
        beads[j].dependencies is None,
        beads[j].status@ == "in_progress"@,
        forall|k: int| 0 <= k < beads.len() && k != j ==> (#[trigger] beads[k]).id@ != beads[j].id@,
    ensures
        epic_update_of(beads, beads[i]) == Some("in_progress"@),
        epic_updates_spec(beads, beads).contains((beads[i].id@, "in_progress"@)),
{
    let p = beads[i].id@;
    let x = beads[j].id@;
    let n = p.len() as int;
    assert(x[n] == '.');
    assert(last_dot(x, n)) by {
        assert forall|q: int| n < q < x.len() implies x[q] != '.' by {
            assert(x[q] == suffix[q - n - 1]);
            if x[q] == '.' {
                assert(suffix.contains('.'));
            }
        }
    }
    assert(x.contains('.'));
    let c = choose|k: int| last_dot(x, k);
    if c < n {
        assert(x[n] != '.');
    } else if c > n {
        assert(x[c] == suffix[c - n - 1]);
        assert(suffix.contains('.'));
    }
    assert(x.take(n) =~= p);
    assert(parent_candidate(x) == Some(p));
    assert(stage_parent(beads[j]) is None);
    assert(bead_ids(beads)[i] == p);
    assert(bead_ids(beads).contains(p));
    assert(inferable(beads[j], bead_ids(beads)));
    assert(child_of(beads, p, x));
    lemma_status_of_unique(beads, j);
    assert(status_of(beads, x) == Some("in_progress"@));
    assert(epic_target(beads, p) == Some("in_progress"@));
    lemma_update_listed(beads, beads, i, "in_progress"@);
}

// ===== Merging the CLI beads with the JSONL export =====

/// The beads that the merge appends after the CLI beads (those among the
/// first `n` JSONL beads) are JSONL beads whose id no CLI bead has, each
/// the last JSONL bead with its id and with a comment newer than the poll
/// time, no two with the same id; a full read (no poll time) appends none.
pub proof fn law_merge_appends_only_unclaimed(cli: Seq<Bead>, js: Seq<Bead>, after: Option<Seq<char>>, n: int)
    requires
        0 <= n <= js.len(),
    ensures
        after is None ==> appended_beads(cli, js, after, n).len() == 0,
        forall|k: int|
            0 <= k < appended_beads(cli, js, after, n).len() ==> {
                &&& !bead_ids(cli).contains((#[trigger] appended_beads(cli, js, after, n)[k]).id@)
                &&& exists|q: int| 0 <= q < n && js[q] == appended_beads(cli, js, after, n)[k] && last_with_id(js, q)
                &&& after matches Some(t) && has_comment_after(appended_beads(cli, js, after, n)[k], t)
            },
        forall|a: int, b: int|
            0 <= a < b < appended_beads(cli, js, after, n).len() ==> (#[trigger] appended_beads(cli, js, after, n)[a]).id@
                != (#[trigger] appended_beads(cli, js, after, n)[b]).id@,
    decreases n,
{
    if n > 0 {
        law_merge_appends_only_unclaimed(cli, js, after, n - 1);
        let r0 = appended_beads(cli, js, after, n - 1);
        let r = appended_beads(cli, js, after, n);
        if r.len() > r0.len() {
            let b = js[n - 1];
            assert(r == r0.push(b));
            assert(unclaimed(cli, js, n - 1));
            assert forall|x: int| 0 <= x < r0.len() implies r0[x].id@ != b.id@ by {
                let q = choose|q: int| 0 <= q < n - 1 && js[q] == r0[x] && last_with_id(js, q);
                assert(js[n - 1].id@ != js[q].id@);
            }
            assert forall|k: int| 0 <= k < r.len() implies {
                &&& !bead_ids(cli).contains((#[trigger] r[k]).id@)
                &&& exists|q: int| 0 <= q < n && js[q] == r[k] && last_with_id(js, q)
                &&& after matches Some(t) && has_comment_after(r[k], t)
            } by {
                if k < r0.len() {
                    assert(r[k] == r0[k]);
                    let q = choose|q: int| 0 <= q < n - 1 && js[q] == r0[k] && last_with_id(js, q);
                    assert(0 <= q < n && js[q] == r[k] && last_with_id(js, q));
                } else {
                    assert(r[k] == b);
                    assert(js[n - 1] == r[k] && last_with_id(js, n - 1));
                }
            }
            assert forall|x: int, y: int| 0 <= x < y < r.len() implies (#[trigger] r[x]).id@ != (#[trigger] r[y]).id@ by {
                if y < r0.len() {
                    assert(r[x] == r0[x] && r[y] == r0[y]);
                } else {
                    assert(r[x] == r0[x] && r[y] == b);
                }
            }
        } else {
            assert(r == r0);
            assert forall|k: int| 0 <= k < r.len() implies {
                &&& !bead_ids(cli).contains((#[trigger] r[k]).id@)
                &&& exists|q: int| 0 <= q < n && js[q] == r[k] && last_with_id(js, q)
                &&& after matches Some(t) && has_comment_after(r[k], t)
            } by {
                let q = choose|q: int| 0 <= q < n - 1 && js[q] == r0[k] && last_with_id(js, q);
                assert(0 <= q < n && js[q] == r[k]);
            }
        }
    }
}

// ===== Updating a project =====

/// A successful update returns the stored project with every field that
/// the input gives set to it (name, path, local path), opened at `now`,
/// with the same id and creation time; the other projects stay as they were.
pub proof fn law_update_sets_given_fields(
    s: DbState,
    t: DbState,
    id: Seq<char>,
    input: UpdateProjectInput,
    now: String,
    p: Project,
)
    requires
        update_project_outcome(s, t, id, input, now, Ok(p)),
    ensures
        has_project(s, id),
        t.projects.len() == s.projects.len(),
        t.projects[project_pos(s, id)] == p,
        p.id == s.projects[project_pos(s, id)].id,
        p.created_at == s.projects[project_pos(s, id)].created_at,
        p.last_opened == now,
        input.name matches Some(x) ==> p.name == x,
        input.name is None ==> p.name == s.projects[project_pos(s, id)].name,
        input.path matches Some(x) ==> p.path == x,
        input.path is None ==> p.path == s.projects[project_pos(s, id)].path,
        input.local_path matches Some(x) ==> p.local_path == Some(x),
        input.local_path is None ==> p.local_path == s.projects[project_pos(s, id)].local_path,
        forall|k: int| 0 <= k < s.projects.len() && k != project_pos(s, id) ==> #[trigger] t.projects[k] == s.projects[k],
{
}

// ===== Removing a tag from a project =====

/// Removing tag `tid` from project `pid` drops that link and only that
/// one: every other project keeps every tag, and `pid` keeps its other tags.
pub proof fn law_remove_tag_only_that_link(s: DbState, t: DbState, pid: Seq<char>, tid: Seq<char>)
    requires
        t == (DbState { links: keep(s.links, not_link(pid, tid)), ..s }),
    ensures
        !has_link(t, pid, tid),
        forall|q: Seq<char>, u: Seq<char>| !(q == pid && u == tid) ==> has_link(t, q, u) == has_link(s, q, u),
{
    let f = not_link(pid, tid);
    if has_link(t, pid, tid) {
        let w = choose|w: int| 0 <= w < t.links.len() && (#[trigger] t.links[w]).0@ == pid && t.links[w].1@ == tid;
        assert(t.links.contains(t.links[w]));
        lemma_keep_member(s.links, f, t.links[w]);
    }
    assert forall|q: Seq<char>, u: Seq<char>| !(q == pid && u == tid) implies has_link(t, q, u) == has_link(s, q, u) by {
        if has_link(t, q, u) {
            let w = choose|w: int| 0 <= w < t.links.len() && (#[trigger] t.links[w]).0@ == q && t.links[w].1@ == u;
            assert(t.links.contains(t.links[w]));
            lemma_keep_member(s.links, f, t.links[w]);
            let v = choose|v: int| 0 <= v < s.links.len() && s.links[v] == t.links[w];
            assert(s.links[v].0@ == q && s.links[v].1@ == u);
        }
        if has_link(s, q, u) {
            let v = choose|v: int| 0 <= v < s.links.len() && (#[trigger] s.links[v]).0@ == q && s.links[v].1@ == u;
            assert(s.links.contains(s.links[v]));
            assert(f(s.links[v]));
            lemma_keep_member(s.links, f, s.links[v]);
            let w = choose|w: int| 0 <= w < t.links.len() && t.links[w] == s.links[v];
            assert(t.links[w].0@ == q && t.links[w].1@ == u);
        }
    }
}

// ===== Checking an update request =====

/// An update request is accepted exactly when its id is not blank and it
/// gives at least one of title, description and status.
pub proof fn law_update_accepted(req: UpdateBeadRequest, r: Result<(), ApiError>)
    requires
        update_checked(req, r),
    ensures
        r is Ok <==> (trim_spec(req.id@).len() > 0 && (req.title is Some || req.description is Some
            || req.status is Some)),
{
}

// ===== Post-processing =====

/// After post-processing, a bead whose parent is in the list appears in
/// that parent's children.
pub proof fn law_parent_lists_child(beads: Seq<Bead>, r: Seq<Bead>, i: int, j: int)
    requires
        post_processed(beads, r),
        0 <= i < r.len(),
        0 <= j < r.len(),
        opt_view(r[j].parent_id) == Some(r[i].id@),
    ensures
        r[i].children matches Some(c) && str_views(c@).contains(r[j].id@),
{
    let p = beads[i].id@;
    let x = beads[j].id@;
    assert(r[i].id == beads[i].id);
    assert(r[j].id == beads[j].id);
    assert(final_parent(beads, j) == Some(p));
    let inf = inferred_children(beads, bead_ids(beads), p);
    if first_with_id(beads, j) && inferred_for_id(beads, x) {
        let m = choose|m: int| 0 <= m < beads.len() && #[trigger] beads[m].id@ == x && inferable(beads[m], bead_ids(beads));
        assert(parent_candidate(beads[m].id@) == Some(p));
        lemma_inferred_children_member(beads, bead_ids(beads), p, x);
        assert(inf.contains(x));
        assert(inf.len() > 0);
        assert(has_children(beads, p));
        let c = r[i].children.unwrap();
        let cv = str_views(c@);
        assert(children_ok(beads, p, cv));
        let k = cv.len() - inf.len();
        let q = choose|q: int| 0 <= q < inf.len() && inf[q] == x;
        assert(cv.skip(k)[q] == x);
        assert(cv[k + q] == x);
    } else {
        assert(stage_parent(beads[j]) == Some(p));
        assert(links_to(beads[j], p));
        assert(linked_child(beads, p, x));
        assert(has_children(beads, p));
        let c = r[i].children.unwrap();
        let cv = str_views(c@);
        assert(children_ok(beads, p, cv));
        let k = cv.len() - inf.len();
        assert(cv.take(k).contains(x));
        let q = choose|q: int| 0 <= q < k && cv.take(k)[q] == x;
        assert(cv[q] == x);
    }
}

/// The bead has at most one legacy `parent-child` dependency.
pub open spec fn at_most_one_pc(b: Bead) -> bool {
    match b.dependencies {
        Some(RawDependencies::Legacy(d)) => forall|i: int, j: int|
            0 <= i < j < d@.len() ==> !(is_pc(#[trigger] d@[i]) && is_pc(#[trigger] d@[j])),
        _ => true,
    }
}

/// No two beads share an id.
pub open spec fn distinct_ids(beads: Seq<Bead>) -> bool {
    forall|a: int, b: int| 0 <= a < b < beads.len() ==> (#[trigger] beads[a]).id@ != (#[trigger] beads[b]).id@
}

proof fn lemma_single_pc_parent(deps: Seq<LegacyDependency>, cur: Option<Seq<char>>, k: int)
    requires
        0 <= k < deps.len(),
        is_pc(deps[k]),
        forall|i: int, j: int| 0 <= i < j < deps.len() ==> !(is_pc(#[trigger] deps[i]) && is_pc(#[trigger] deps[j])),
    ensures
        legacy_parent(deps, cur) == Some(deps[k].depends_on_id@),
    decreases deps.len(),
{
    if k < deps.len() - 1 {
        assert(!is_pc(deps.last())) by {
            assert(!(is_pc(deps[k]) && is_pc(deps[deps.len() - 1])));
        }
        let init = deps.drop_last();
        assert(init[k] == deps[k]);
        assert forall|i: int, j: int| 0 <= i < j < init.len() implies !(is_pc(#[trigger] init[i]) && is_pc(
            #[trigger] init[j])) by {
            assert(init[i] == deps[i] && init[j] == deps[j]);
        }
        lemma_single_pc_parent(init, cur, k);
    }
}

/// A bead with a `parent-child` dependency on `p`, and no other, has `p`
/// as its parent once dependencies are read.
proof fn lemma_pc_dep_is_parent(b: Bead, p: Seq<char>)
    requires
        at_most_one_pc(b),
        has_pc_dep_to(b, p),
    ensures
        stage_parent(b) == Some(p),
{
    match b.dependencies {
        Some(RawDependencies::Legacy(d)) => {
            let k = choose|k: int| 0 <= k < d@.len() && is_pc(#[trigger] d@[k]) && d@[k].depends_on_id@ == p;
            lemma_single_pc_parent(d@, opt_view(b.parent_id), k);
        },
        _ => {},
    }
}

/// With distinct ids, the inferred children of `p` hold no id twice.
proof fn lemma_inferred_children_distinct(beads: Seq<Bead>, all: Seq<Seq<char>>, p: Seq<char>)
    requires
        distinct_ids(beads),
    ensures
        inferred_children(beads, all, p).no_duplicates(),
    decreases beads.len(),
{
    if beads.len() > 0 {
        let init = beads.drop_last();
        assert(distinct_ids(init)) by {
            assert forall|a: int, b: int| 0 <= a < b < init.len() implies (#[trigger] init[a]).id@ != (
            #[trigger] init[b]).id@ by {
                assert(init[a] == beads[a] && init[b] == beads[b]);
            }
        }
        lemma_inferred_children_distinct(init, all, p);
        let r0 = inferred_children(init, all, p);
        let x = beads.last().id@;
        if r0.contains(x) {
            lemma_inferred_children_member(init, all, p, x);
            let i = choose|i: int| 0 <= i < init.len() && #[trigger] init[i].id@ == x && inferable(init[i], all)
                && parent_candidate(init[i].id@) == Some(p);
            assert(beads[i].id@ != beads[beads.len() - 1].id@);
        }
    }
}

/// With distinct ids and at most one `parent-child` dependency per bead,
/// `x` names a bead whose parent after post-processing is `p` exactly when
/// it is a linked or an inferred child of `p`.
proof fn lemma_final_parent_children(beads: Seq<Bead>, p: Seq<char>, x: Seq<char>)
    requires
        distinct_ids(beads),
        forall|j: int| 0 <= j < beads.len() ==> at_most_one_pc(#[trigger] beads[j]),
    ensures
        (exists|j: int| 0 <= j < beads.len() && #[trigger] beads[j].id@ == x && final_parent(beads, j) == Some(p))
            <==> (linked_child(beads, p, x) || inferred_children(beads, bead_ids(beads), p).contains(x)),
        !(linked_child(beads, p, x) && inferred_children(beads, bead_ids(beads), p).contains(x)),
{
    let all = bead_ids(beads);
    lemma_inferred_children_member(beads, all, p, x);
    assert forall|j: int| 0 <= j < beads.len() implies #[trigger] first_with_id(beads, j) by {
        assert forall|k: int| 0 <= k < j implies beads[k].id@ != beads[j].id@ by {}
    }
    if linked_child(beads, p, x) {
        let m = choose|m: int| 0 <= m < beads.len() && #[trigger] beads[m].id@ == x && links_to(beads[m], p);
        if has_pc_dep_to(beads[m], p) {
            lemma_pc_dep_is_parent(beads[m], p);
        }
        assert(stage_parent(beads[m]) == Some(p));
        if inferred_for_id(beads, x) {
            let q = choose|q: int| 0 <= q < beads.len() && #[trigger] beads[q].id@ == x && inferable(beads[q], all);
            if q < m {
                assert(beads[q].id@ != beads[m].id@);
            } else if q > m {
                assert(beads[m].id@ != beads[q].id@);
            }
        }
        assert(final_parent(beads, m) == Some(p));
        if inferred_children(beads, all, p).contains(x) {
            let q = choose|q: int| 0 <= q < beads.len() && #[trigger] beads[q].id@ == x && inferable(beads[q], all)
                && parent_candidate(beads[q].id@) == Some(p);
            if q < m {
                assert(beads[q].id@ != beads[m].id@);
            } else if q > m {
                assert(beads[m].id@ != beads[q].id@);
            }
        }
    }
    if inferred_children(beads, all, p).contains(x) {
        let m = choose|m: int| 0 <= m < beads.len() && #[trigger] beads[m].id@ == x && inferable(beads[m], all)
            && parent_candidate(beads[m].id@) == Some(p);
        assert(inferred_for_id(beads, x));
        assert(final_parent(beads, m) == Some(p));
    }
    if exists|j: int| 0 <= j < beads.len() && #[trigger] beads[j].id@ == x && final_parent(beads, j) == Some(p) {
        let j = choose|j: int| 0 <= j < beads.len() && #[trigger] beads[j].id@ == x && final_parent(beads, j) == Some(p);
        if inferred_for_id(beads, x) {
            let q = choose|q: int| 0 <= q < beads.len() && #[trigger] beads[q].id@ == x && inferable(beads[q], all);
            if q < j {
                assert(beads[q].id@ != beads[j].id@);
            } else if q > j {
                assert(beads[j].id@ != beads[q].id@);
            }
            assert(inferred_children(beads, all, p).contains(x));
        } else {
            assert(stage_parent(beads[j]) == Some(p));
            assert(links_to(beads[j], p));
            assert(linked_child(beads, p, x));
        }
    }
}

/// After post-processing, the beads whose parent is bead `i` are those
/// named among its linked or inferred children.
proof fn lemma_parent_named(beads: Seq<Bead>, r: Seq<Bead>, i: int, x: Seq<char>)
    requires
        post_processed(beads, r),
        distinct_ids(beads),
        forall|j: int| 0 <= j < beads.len() ==> at_most_one_pc(#[trigger] beads[j]),
        0 <= i < r.len(),
    ensures
        (exists|j: int| 0 <= j < r.len() && (#[trigger] r[j]).id@ == x && opt_view(r[j].parent_id) == Some(r[i].id@))
            <==> (linked_child(beads, beads[i].id@, x) || inferred_children(beads, bead_ids(beads), beads[i].id@).contains(x)),
{
    let p = beads[i].id@;
    assert(r[i].id == beads[i].id);
    lemma_final_parent_children(beads, p, x);
    if exists|j: int| 0 <= j < r.len() && (#[trigger] r[j]).id@ == x && opt_view(r[j].parent_id) == Some(p) {
        let j = choose|j: int| 0 <= j < r.len() && (#[trigger] r[j]).id@ == x && opt_view(r[j].parent_id) == Some(p);
        assert(r[j].id == beads[j].id);
        assert(beads[j].id@ == x && final_parent(beads, j) == Some(p));
    }
    if linked_child(beads, p, x) || inferred_children(beads, bead_ids(beads), p).contains(x) {
        let j = choose|j: int| 0 <= j < beads.len() && #[trigger] beads[j].id@ == x && final_parent(beads, j) == Some(p);
        assert(r[j].id == beads[j].id);
    }
}

/// When bead ids are distinct and no bead has more than one
/// `parent-child` dependency, post-processing gives every parent a
/// children list that holds, without duplicates, exactly the ids of the
/// beads whose parent it is; a bead that is no one's parent keeps the
/// children it was read with.
pub proof fn law_children_are_exactly_the_children(beads: Seq<Bead>, r: Seq<Bead>, i: int)
    requires
        post_processed(beads, r),
        distinct_ids(beads),
        forall|j: int| 0 <= j < beads.len() ==> at_most_one_pc(#[trigger] beads[j]),
        0 <= i < r.len(),
    ensures
        if exists|j: int| 0 <= j < r.len() && opt_view((#[trigger] r[j]).parent_id) == Some(r[i].id@) {
            r[i].children matches Some(c) && str_views(c@).no_duplicates() && forall|x: Seq<char>|
                #[trigger] str_views(c@).contains(x) <==> exists|j: int|
                    0 <= j < r.len() && (#[trigger] r[j]).id@ == x && opt_view(r[j].parent_id) == Some(r[i].id@)
        } else {
            r[i].children == beads[i].children
        },
{
    let p = beads[i].id@;
    assert(r[i].id == beads[i].id);
    let all = bead_ids(beads);
    let inf = inferred_children(beads, all, p);
    if exists|j: int| 0 <= j < r.len() && opt_view((#[trigger] r[j]).parent_id) == Some(r[i].id@) {
        let j = choose|j: int| 0 <= j < r.len() && opt_view((#[trigger] r[j]).parent_id) == Some(r[i].id@);
        let x = r[j].id@;
        lemma_parent_named(beads, r, i, x);
        assert(linked_child(beads, p, x) || inf.contains(x));
        if inf.contains(x) {
            assert(inf.len() > 0);
        }
        assert(has_children(beads, p));
        let c = r[i].children.unwrap();
        let cv = str_views(c@);
        assert(children_ok(beads, p, cv));
        let k = cv.len() - inf.len();
        let a = cv.take(k);
        let b = cv.skip(k);
        assert(cv =~= a + b);
        assert(a.no_duplicates()) by {
            assert forall|u: int, v: int| 0 <= u < a.len() && 0 <= v < a.len() && u != v implies a[u] != a[v] by {
                if u < v {
                    assert(seq_lt(a[u], a[v]));
                    lemma_lt_irreflexive(a[u]);
                } else {
                    assert(seq_lt(a[v], a[u]));
                    lemma_lt_irreflexive(a[v]);
                }
            }
        }
        lemma_inferred_children_distinct(beads, all, p);
        assert forall|u: int, v: int| 0 <= u < a.len() && 0 <= v < b.len() implies a[u] != b[v] by {
            assert(a.contains(a[u]));
            assert(b.contains(b[v]));
            lemma_final_parent_children(beads, p, a[u]);
        }
        lemma_no_dup_in_concat(a, b);
        assert forall|x: Seq<char>| #[trigger] cv.contains(x) <==> exists|j: int|
            0 <= j < r.len() && (#[trigger] r[j]).id@ == x && opt_view(r[j].parent_id) == Some(r[i].id@) by {
            lemma_parent_named(beads, r, i, x);
            if cv.contains(x) {
                let q = choose|q: int| 0 <= q < cv.len() && cv[q] == x;
                if q < k {
                    assert(a[q] == x);
                    assert(a.contains(x));
                } else {
                    assert(b[q - k] == x);
                }
            }
            if linked_child(beads, p, x) {
                assert(a.contains(x));
                let q = choose|q: int| 0 <= q < a.len() && a[q] == x;
                assert(cv[q] == x);
            }
            if inf.contains(x) {
                let q = choose|q: int| 0 <= q < inf.len() && inf[q] == x;
                assert(cv[k + q] == x);
            }
        }
    } else {
        assert(!has_children(beads, p)) by {
            if exists|x: Seq<char>| linked_child(beads, p, x) {
                let x = choose|x: Seq<char>| linked_child(beads, p, x);
                lemma_final_parent_children(beads, p, x);
                let j = choose|j: int| 0 <= j < beads.len() && #[trigger] beads[j].id@ == x && final_parent(beads, j) == Some(p);
                assert(opt_view(r[j].parent_id) == Some(r[i].id@));
            }
            if inf.len() > 0 {
                let x = inf[0];
                assert(inf.contains(x));
                lemma_final_parent_children(beads, p, x);
                let j = choose|j: int| 0 <= j < beads.len() && #[trigger] beads[j].id@ == x && final_parent(beads, j) == Some(p);
                assert(opt_view(r[j].parent_id) == Some(r[i].id@));
            }
        }
    }
}

// ===== Reading the JSONL export =====

/// Every line read as a bead is non-empty and is not a service record.
pub proof fn law_issue_lines_are_issues(contents: Seq<char>, line: Seq<char>)
    requires
        issue_lines_spec(contents).contains(line),
    ensures
        line.len() > 0,
        !non_issue_spec(line),
{
    let ls = nonblank_lines_spec(contents);
    lemma_keep_member(ls, issue_line(), line);
    let trimmed = crate::sources::lines_spec(contents).map_values(|l: Seq<char>| crate::text::trim_spec(l));
    lemma_keep_member(trimmed, nonempty(), line);
}

// ===== Cached counts =====

/// The cached counts never add up to more beads than were read.
pub proof fn law_status_counts_bounded(beads: Seq<Bead>)
    ensures
        status_count(beads, "open"@) + status_count(beads, "in_progress"@) + status_count(beads, "inreview"@)
            + status_count(beads, "closed"@) <= beads.len(),
    decreases beads.len(),
{
    reveal_strlit("closed");
    reveal_strlit("in_progress");
    reveal_strlit("inreview");
    reveal_strlit("open");
    if beads.len() > 0 {
        law_status_counts_bounded(beads.drop_last());
        assert("open"@.len() == 4 && "in_progress"@.len() == 11 && "inreview"@.len() == 8 && "closed"@.len() == 6);
    }
}

/// After the counts of a project are cached, reading them back gives
/// exactly what was cached.
pub proof fn law_counts_read_back(s: DbState, t: DbState, pid: Seq<char>, c: CachedCounts)
    requires
        wf_state(t),
        counts_upserted(s.counts, t.counts, pid, c),
    ensures
        counts_of(t, pid) == Some(c),
{
    let sc = s.counts;
    let w: int = if exists|k: int| 0 <= k < sc.len() && (#[trigger] sc[k]).0@ == pid {
        let k = choose|k: int| 0 <= k < sc.len() && (#[trigger] sc[k]).0@ == pid && t.counts == sc.update(k, (sc[k].0, c));
        assert(t.counts[k] == (sc[k].0, c));
        k
    } else {
        assert(t.counts[sc.len() as int] == t.counts.last());
        sc.len() as int
    };
    assert(t.counts[w].0@ == pid);
    assert(t.counts[w].1 == c);
    let q = choose|q: int| 0 <= q < t.counts.len() && (#[trigger] t.counts[q]).0@ == pid;
    if q < w {
        assert(t.counts[q].0@ != t.counts[w].0@);
    } else if q > w {
        assert(t.counts[w].0@ != t.counts[q].0@);
    }
}


/// After a successful read, the counts cached for the project stored at
/// the read path are the per-status counts of the beads read.
pub proof fn law_read_counts_cached(
    s: DbState,
    t: DbState,
    path: Seq<char>,
    beads: Seq<Bead>,
    source: Seq<char>,
    now: String,
)
    requires
        wf_state(t),
        counts_cached(s, t, path, beads, source, now),
        exists|k: int| 0 <= k < s.projects.len() && path_matches((#[trigger] s.projects[k]).path@, path),
    ensures
        exists|k: int|
            #[trigger] first_path_match(s, path, k) && (counts_of(t, s.projects[k].id@) matches Some(c)
                && counts_of_beads(c, beads, source, now)),
{
    let (k, c) = choose|k: int, c: CachedCounts|
        #[trigger] first_path_match(s, path, k) && #[trigger] counts_of_beads(c, beads, source, now) && {
            &&& t.projects == s.projects
            &&& t.tags == s.tags
            &&& t.links == s.links
            &&& counts_upserted(s.counts, t.counts, s.projects[k].id@, c)
        };
    law_counts_read_back(s, t, s.projects[k].id@, c);
}

// ===== Touching a project =====

/// Touching a project sets its `last_opened` and changes nothing else in
/// the store.
pub proof fn law_touch_changes_only_last_opened(s: DbState, t: DbState, id: Seq<char>, now: String)
    requires
        touch_outcome(s, t, id, now, Ok(())),
    ensures
        t.tags == s.tags,
        t.links == s.links,
        t.counts == s.counts,
        t.projects.len() == s.projects.len(),
        forall|k: int| 0 <= k < s.projects.len() && k != project_pos(s, id) ==> #[trigger] t.projects[k] == s.projects[k],
        t.projects[project_pos(s, id)] == (Project { last_opened: now, ..s.projects[project_pos(s, id)] }),
{
}


// ===== Migrations =====

/// Running the migrations pending at version `current` applies the versions
/// above it, once each and in increasing order, and leaves the schema at
/// version 3 (or where it was, past it); a second run then finds nothing
/// pending.
pub proof fn law_migrations_run_once(current: i64)
    ensures
        ({
            let ran = keep(migrations_spec(), |m: (i64, Seq<char>)| m.0 > current);
            let after: i64 = if ran.len() > 0 {
                ran.last().0
            } else {
                current
            };
            &&& ran.map_values(|m: (i64, Seq<char>)| m.0) == if current < 1 {
                seq![1i64, 2i64, 3i64]
            } else if current < 2 {
                seq![2i64, 3i64]
            } else if current < 3 {
                seq![3i64]
            } else {
                Seq::<i64>::empty()
            }
            &&& after == if current < 3 { 3 } else { current }
            &&& keep(migrations_spec(), |m: (i64, Seq<char>)| m.0 > after).len() == 0
        }),
{
    reveal_with_fuel(keep, 4);
    let spec = migrations_spec();
    let f = |m: (i64, Seq<char>)| m.0 > current;
    assert(spec.drop_last().drop_last().drop_last() =~= Seq::<(i64, Seq<char>)>::empty());
    let ran = keep(spec, f);
    let after: i64 = if ran.len() > 0 { ran.last().0 } else { current };
    let g = |m: (i64, Seq<char>)| m.0 > after;
    assert(keep(spec, g).len() == 0);
    let vs = ran.map_values(|m: (i64, Seq<char>)| m.0);
    if current < 1 {
        assert(vs =~= seq![1i64, 2i64, 3i64]);
    } else if current < 2 {
        assert(vs =~= seq![2i64, 3i64]);
    } else if current < 3 {
        assert(vs =~= seq![3i64]);
    } else {
        assert(vs =~= Seq::<i64>::empty());
    }
}

// ===== Tags of a project =====

/// After a tag is added to a project, listing the project's tags shows it.
pub proof fn law_added_tag_listed(s: DbState, t: DbState, pid: Seq<char>, tid: Seq<char>, r: Seq<crate::db::Tag>)
    requires
        has_tag(s, tid),
        link_added(s, t, pid, tid),
        is_tag_listing(t, pid, r),
    ensures
        exists|k: int| 0 <= k < r.len() && (#[trigger] r[k]).id@ == tid,
{
    assert(has_link(t, pid, tid)) by {
        if has_link(s, pid, tid) {
            let k = choose|k: int| 0 <= k < s.links.len() && (#[trigger] s.links[k]).0@ == pid && s.links[k].1@ == tid;
            assert(t.links[k] == s.links[k]);
        } else {
            assert(t.links[t.links.len() - 1] == t.links.last());
        }
    }
    let q = choose|q: int| 0 <= q < s.tags.len() && (#[trigger] s.tags[q]).id@ == tid;
    let tag = t.tags[q];
    assert(tag_of(t, pid)(tag));
    lemma_keep_member(t.tags, tag_of(t, pid), tag);
    assert(r.contains(tag));
    let w = choose|w: int| 0 <= w < r.len() && r[w] == tag;
    assert(r[w].id@ == tid);
}

/// A tag added to a project, once or again, is listed exactly once among
/// the project's tags.
pub proof fn law_added_tag_listed_once(
    s: DbState,
    t: DbState,
    pid: Seq<char>,
    tid: Seq<char>,
    r: Seq<crate::db::Tag>,
)
    requires
        wf_state(t),
        has_tag(s, tid),
        link_added(s, t, pid, tid),
        is_tag_listing(t, pid, r),
    ensures
        exists|k: int|
            0 <= k < r.len() && (#[trigger] r[k]).id@ == tid && forall|j: int|
                0 <= j < r.len() && (#[trigger] r[j]).id@ == tid ==> j == k,
{
    law_added_tag_listed(s, t, pid, tid, r);
    let k = choose|k: int| 0 <= k < r.len() && (#[trigger] r[k]).id@ == tid;
    let f = tag_of(t, pid);
    let kp = keep(t.tags, f);
    let key = |x: crate::db::Tag| x.id@;
    assert forall|i: int, j: int| 0 <= i < j < t.tags.len() implies key(#[trigger] t.tags[i]) != key(
        #[trigger] t.tags[j]) by {}
    lemma_keep_unique(t.tags, f, key);
    assert(kp.no_duplicates()) by {
        assert forall|i: int, j: int| 0 <= i < kp.len() && 0 <= j < kp.len() && i != j implies kp[i] != kp[j] by {
            if i < j {
                assert(key(kp[i]) != key(kp[j]));
            } else {
                assert(key(kp[j]) != key(kp[i]));
            }
        }
    }
    kp.unique_seq_to_set();
    assert(r.to_set() =~= kp.to_set()) by {
        assert forall|x: crate::db::Tag| r.to_set().contains(x) <==> kp.to_set().contains(x) by {
            assert(r.contains(x) <==> kp.contains(x));
        }
    }
    r.lemma_no_dup_set_cardinality();
    assert forall|j: int| 0 <= j < r.len() && (#[trigger] r[j]).id@ == tid implies j == k by {
        assert(r.contains(r[j]) && r.contains(r[k]));
        lemma_keep_member(t.tags, f, r[j]);
        lemma_keep_member(t.tags, f, r[k]);
        let a = choose|a: int| 0 <= a < t.tags.len() && t.tags[a] == r[j];
        let b = choose|b: int| 0 <= b < t.tags.len() && t.tags[b] == r[k];
        if a < b {
            assert(t.tags[a].id@ != t.tags[b].id@);
        } else if b < a {
            assert(t.tags[b].id@ != t.tags[a].id@);
        }
        assert(r[j] == r[k]);
    }
}

/// After a tag is removed from a project, listing the project's tags no
/// longer shows it.
pub proof fn law_removed_tag_unlisted(s: DbState, t: DbState, pid: Seq<char>, tid: Seq<char>, r: Seq<crate::db::Tag>)
    requires
        t == (DbState { links: keep(s.links, not_link(pid, tid)), ..s }),
        is_tag_listing(t, pid, r),
    ensures
        forall|k: int| 0 <= k < r.len() ==> (#[trigger] r[k]).id@ != tid,
{
    assert forall|k: int| 0 <= k < r.len() implies (#[trigger] r[k]).id@ != tid by {
        if r[k].id@ == tid {
            assert(r.contains(r[k]));
            lemma_keep_member(t.tags, tag_of(t, pid), r[k]);
            assert(has_link(t, pid, tid));
            let w = choose|w: int| 0 <= w < t.links.len() && (#[trigger] t.links[w]).0@ == pid && t.links[w].1@ == tid;
            assert(t.links.contains(t.links[w]));
            lemma_keep_member(s.links, not_link(pid, tid), t.links[w]);
        }
    }
}

// ===== Deleting a project =====

/// Deleting a project removes it with its tag links and cached counts.
pub proof fn law_delete_cascades(s: DbState, t: DbState, pid: Seq<char>)
    requires
        wf_state(s),
        has_project(s, pid),
        t == without_project(s, project_pos(s, pid)),
    ensures
        !has_project(t, pid),
        forall|i: int| 0 <= i < t.links.len() ==> (#[trigger] t.links[i]).0@ != pid,
        counts_of(t, pid) is None,
{
    let k = project_pos(s, pid);
    assert(s.projects[k].id@ == pid);
    if has_project(t, pid) {
        let q = choose|q: int| 0 <= q < t.projects.len() && (#[trigger] t.projects[q]).id@ == pid;
        if q < k {
            assert(t.projects[q] == s.projects[q]);
            assert(s.projects[q].id@ != s.projects[k].id@);
        } else {
            assert(t.projects[q] == s.projects[q + 1]);
            assert(s.projects[k].id@ != s.projects[q + 1].id@);
        }
    }
    assert forall|i: int| 0 <= i < t.links.len() implies (#[trigger] t.links[i]).0@ != pid by {
        assert(t.links.contains(t.links[i]));
        lemma_keep_member(s.links, not_of_project(pid), t.links[i]);
    }
    if exists|q: int| 0 <= q < t.counts.len() && (#[trigger] t.counts[q]).0@ == pid {
        let q = choose|q: int| 0 <= q < t.counts.len() && (#[trigger] t.counts[q]).0@ == pid;
        assert(t.counts.contains(t.counts[q]));
        lemma_keep_member(s.counts, counts_not_of(pid), t.counts[q]);
    }
}

// ===== Archiving =====

/// Archiving a project that is not archived, then unarchiving it, gives
/// back the store as it was.
pub proof fn law_archive_round_trip(s: DbState, m: DbState, t: DbState, id: Seq<char>, now: String)
    requires
        wf_state(s),
        archive_outcome(s, m, id, now, Ok(())),
        unarchive_outcome(m, t, id, Ok(())),
        s.projects[project_pos(s, id)].archived_at is None,
    ensures
        t == s,
{
    let k = project_pos(s, id);
    assert(s.projects[k].id@ == id);
    assert(m.projects[k].id@ == id);
    let k2 = project_pos(m, id);
    if k2 != k {
        if k2 < k {
            assert(m.projects[k2] == s.projects[k2]);
            assert(s.projects[k2].id@ != s.projects[k].id@);
        } else {
            assert(m.projects[k2] == s.projects[k2]);
            assert(s.projects[k].id@ != s.projects[k2].id@);
        }
    }
    assert(t.projects =~= s.projects);
}

// ===== Creating a project =====

/// A created project is in the listing of all projects.
pub proof fn law_created_project_listed(
    s: DbState,
    t: DbState,
    input: CreateProjectInput,
    id: String,
    now: String,
    p: Project,
    r: Seq<Project>,
)
    requires
        create_project_outcome(s, t, input, id, now, Ok(p)),
        is_project_listing(t, true, r),
    ensures
        r.contains(p),
{
    assert(t.projects[t.projects.len() - 1] == p);
    assert(t.projects.contains(p));
    lemma_keep_member(t.projects, listed(true), p);
}

} // verus!
