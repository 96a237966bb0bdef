//! Epic status computed from the statuses of its children.

use vstd::prelude::*;
use crate::beads::{Bead, opt_view, str_views};
use crate::links::{
    bead_ids, collect_ids, collect_inference, inferable, inferred_children, inferred_children_of,
    lemma_ids_index, link_pairs, linked_child, pair_in, parent_candidate, sorted_children,
};
use crate::text::str_eq;

verus! {

/// The status an epic should take given its children's statuses, if any.
pub open spec fn epic_status_spec(s: Seq<Seq<char>>) -> Option<Seq<char>> {
    if s.len() == 0 {
        None
    } else if s.contains("in_progress"@) {
        Some("in_progress"@)
    } else if forall|i: int| 0 <= i < s.len() ==> #[trigger] s[i] == "inreview"@ || s[i] == "closed"@ {
        Some("inreview"@)
    } else if forall|i: int| 0 <= i < s.len() ==> #[trigger] s[i] == "open"@ {
        Some("open"@)
    } else {
        None
    }
}

/// The view of an optional string slice.
pub open spec fn opt_str_view(r: Option<&str>) -> Option<Seq<char>> {
    match r {
        Some(x) => Some(x@),
        None => None,
    }
}

/// The views of a sequence of string slices.
pub open spec fn views_of_strs(s: Seq<&str>) -> Seq<Seq<char>> {
    s.map_values(|x: &str| x@)
}

/// Computes the appropriate status for an epic based on its children's statuses.
pub fn compute_epic_status_from_children(child_statuses: &[&str]) -> (r: Option<&'static str>)
    ensures
        opt_str_view(r) == epic_status_spec(views_of_strs(child_statuses@)),
{
    let ghost s = views_of_strs(child_statuses@);
    let n = child_statuses.len();
    if n == 0 {
        return None;
    }
    let mut i: usize = 0;
    while i < n
        invariant
            n == child_statuses@.len(),
            s == views_of_strs(child_statuses@),
            i <= n,
            forall|j: int| 0 <= j < i ==> s[j] != "in_progress"@,
        decreases n - i,
    {
        if str_eq(child_statuses[i], "in_progress") {
            assert(s[i as int] == "in_progress"@);
            assert(s.contains("in_progress"@));
            return Some("in_progress");
        }
        i += 1;
    }
    assert(!s.contains("in_progress"@));
    let mut all_rc = true;
    let mut all_open = true;
    let mut k: usize = 0;
    while k < n
        invariant
            n == child_statuses@.len(),
            s == views_of_strs(child_statuses@),
            k <= n,
            all_rc == (forall|j: int| 0 <= j < k ==> #[trigger] s[j] == "inreview"@ || s[j] == "closed"@),
            all_open == (forall|j: int| 0 <= j < k ==> #[trigger] s[j] == "open"@),
        decreases n - k,
    {
        let st = child_statuses[k];
        assert(s[k as int] == st@);
        let is_rc = str_eq(st, "inreview") || str_eq(st, "closed");
        let is_open = str_eq(st, "open");
        all_rc = all_rc && is_rc;
        all_open = all_open && is_open;
        k += 1;
        assert(all_rc == (forall|j: int| 0 <= j < k ==> #[trigger] s[j] == "inreview"@ || s[j] == "closed"@)) by {
            if !all_rc {
                if !is_rc {
                    assert(!(s[k - 1] == "inreview"@ || s[k - 1] == "closed"@));
                }
            }
        }
        assert(all_open == (forall|j: int| 0 <= j < k ==> #[trigger] s[j] == "open"@)) by {
            if !all_open {
                if !is_open {
                    assert(s[k - 1] != "open"@);
                }
            }
        }
    }
    if all_rc {
        Some("inreview")
    } else if all_open {
        Some("open")
    } else {
        None
    }
}

// ===== Epic status updates over a whole set of beads =====

/// The status of the last bead with id `x`, if any.
pub open spec fn status_of(beads: Seq<Bead>, x: Seq<char>) -> Option<Seq<char>>
    decreases beads.len(),
{
    if beads.len() == 0 {
        None
    } else if beads.last().id@ == x {
        Some(beads.last().status@)
    } else {
        status_of(beads.drop_last(), x)
    }
}

/// `x` is a child of `e`: it names `e` as its parent (explicitly or by a
/// dependency), or its dotted id points to `e`.
pub open spec fn child_of(beads: Seq<Bead>, e: Seq<char>, x: Seq<char>) -> bool {
    linked_child(beads, e, x) || exists|i: int|
        0 <= i < beads.len() && #[trigger] beads[i].id@ == x && inferable(beads[i], bead_ids(beads))
            && parent_candidate(x) == Some(e)
}

/// The status that epic `e` should have given the statuses of its children.
pub open spec fn epic_target(beads: Seq<Bead>, e: Seq<char>) -> Option<Seq<char>> {
    if !(exists|x: Seq<char>| child_of(beads, e, x)) {
        None
    } else if exists|x: Seq<char>| child_of(beads, e, x) && status_of(beads, x) == Some("in_progress"@) {
        Some("in_progress"@)
    } else if forall|x: Seq<char>|
        child_of(beads, e, x) ==> status_of(beads, x) == Some("inreview"@) || status_of(beads, x) == Some(
            "closed"@,
        ) {
        Some("inreview"@)
    } else if forall|x: Seq<char>| child_of(beads, e, x) ==> status_of(beads, x) == Some("open"@) {
        Some("open"@)
    } else {
        None
    }
}

/// The new status of bead `b` when it is an open epic whose children call
/// for a different status.
pub open spec fn epic_update_of(beads: Seq<Bead>, b: Bead) -> Option<Seq<char>> {
    if opt_view(b.issue_type) == Some("epic"@) && b.status@ != "closed"@ {
        match epic_target(beads, b.id@) {
            Some(ns) => if b.status@ != ns {
                Some(ns)
            } else {
                None
            },
            None => None,
        }
    } else {
        None
    }
}

/// The (epic id, new status) updates for the beads of `prefix`, in order.
pub open spec fn epic_updates_spec(beads: Seq<Bead>, prefix: Seq<Bead>) -> Seq<(Seq<char>, Seq<char>)>
    decreases prefix.len(),
{
    if prefix.len() == 0 {
        seq![]
    } else {
        let r = epic_updates_spec(beads, prefix.drop_last());
        match epic_update_of(beads, prefix.last()) {
            Some(ns) => r.push((prefix.last().id@, ns)),
            None => r,
        }
    }
}

/// The views of (id, status) pairs.
pub open spec fn pair_views(v: Seq<(String, String)>) -> Seq<(Seq<char>, Seq<char>)> {
    v.map_values(|p: (String, String)| (p.0@, p.1@))
}

/// The inferred children of `p` are the ids of the inferable beads whose
/// dotted id points to `p`.
pub(crate) proof fn lemma_inferred_children_member(beads: Seq<Bead>, all: Seq<Seq<char>>, p: Seq<char>, x: Seq<char>)
    ensures
        inferred_children(beads, all, p).contains(x) <==> exists|i: int|
            0 <= i < beads.len() && #[trigger] beads[i].id@ == x && inferable(beads[i], all)
                && parent_candidate(beads[i].id@) == Some(p),
    decreases beads.len(),
{
    if beads.len() > 0 {
        let init = beads.drop_last();
        lemma_inferred_children_member(init, all, p, x);
        let r0 = inferred_children(init, all, p);
        let r = inferred_children(beads, all, p);
        let b = beads.last();
        if r.contains(x) {
            if r0.contains(x) {
                let i = choose|i: int|
                    0 <= i < init.len() && #[trigger] init[i].id@ == x && inferable(init[i], all)
                        && parent_candidate(init[i].id@) == Some(p);
                assert(beads[i] == init[i]);
            } else {
                let k = choose|k: int| 0 <= k < r.len() && r[k] == x;
                assert(k == r0.len());
                assert(beads[beads.len() - 1] == b);
            }
        }
        if exists|i: int|
            0 <= i < beads.len() && #[trigger] beads[i].id@ == x && inferable(beads[i], all)
                && parent_candidate(beads[i].id@) == Some(p) {
            let i = choose|i: int|
                0 <= i < beads.len() && #[trigger] beads[i].id@ == x && inferable(beads[i], all)
                    && parent_candidate(beads[i].id@) == Some(p);
            if i < init.len() {
                assert(init[i] == beads[i]);
                assert(r0.contains(x));
                let k = choose|k: int| 0 <= k < r0.len() && r0[k] == x;
                assert(r[k] == x);
            } else {
                assert(r[r.len() - 1] == x);
            }
        }
    }
}

/// The status of the last bead with id `x`.
fn status_of_exec(beads: &Vec<Bead>, x: &str) -> (r: Option<String>)
    ensures
        opt_view(r) == status_of(beads@, x@),
{
    let mut i: usize = beads.len();
    assert(beads@.take(i as int) =~= beads@);
    while i > 0
        invariant
            i <= beads@.len(),
            status_of(beads@, x@) == status_of(beads@.take(i as int), x@),
        decreases i,
    {
        let ghost t = beads@.take(i as int);
        assert(t.drop_last() =~= beads@.take(i - 1));
        assert(t.last() == beads@[i - 1]);
        if str_eq(beads[i - 1].id.as_str(), x) {
            return Some(beads[i - 1].status.clone());
        }
        i -= 1;
    }
    None
}

proof fn lemma_status_of_some(beads: Seq<Bead>, i: int)
    requires
        0 <= i < beads.len(),
    ensures
        status_of(beads, beads[i].id@) is Some,
    decreases beads.len(),
{
    if beads.last().id@ != beads[i].id@ {
        assert(i < beads.len() - 1);
        assert(beads.drop_last()[i] == beads[i]);
        lemma_status_of_some(beads.drop_last(), i);
    }
}

/// The status that epic `e` should have, computed from its children.
fn epic_target_exec(
    beads: &Vec<Bead>,
    ids: &Vec<String>,
    cands: &Vec<Option<String>>,
    inf: &Vec<bool>,
    pairs: &Vec<(String, String)>,
    e: &str,
) -> (r: Option<&'static str>)
    requires
        str_views(ids@) == bead_ids(beads@),
        cands@.len() == beads@.len(),
        inf@.len() == beads@.len(),
        forall|i: int| 0 <= i < beads@.len() ==> opt_view(#[trigger] cands@[i]) == parent_candidate(beads@[i].id@),
        forall|i: int| 0 <= i < beads@.len() ==> #[trigger] inf@[i] == inferable(beads@[i], bead_ids(beads@)),
        forall|p: Seq<char>, x: Seq<char>| pair_in(pairs@, p, x) <==> linked_child(beads@, p, x),
    ensures
        opt_str_view(r) == epic_target(beads@, e@),
{
    let ghost bs = beads@;
    let linked = sorted_children(pairs, e);
    let inferred = inferred_children_of(ids, cands, inf, e, Ghost(bs));
    let mut children = linked;
    let mut more = inferred;
    let ghost lv = str_views(children@);
    let ghost iv = str_views(more@);
    children.append(&mut more);
    let ghost cv = str_views(children@);
    proof {
        assert(cv =~= lv + iv);
        assert forall|x: Seq<char>| cv.contains(x) <==> child_of(bs, e@, x) by {
            lemma_inferred_children_member(bs, bead_ids(bs), e@, x);
            if cv.contains(x) {
                let k = choose|k: int| 0 <= k < cv.len() && cv[k] == x;
                if k < lv.len() {
                    assert(lv.contains(x));
                } else {
                    assert(iv[k - lv.len()] == x);
                    assert(iv.contains(x));
                    let i = choose|i: int|
                        0 <= i < bs.len() && #[trigger] bs[i].id@ == x && inferable(bs[i], bead_ids(bs))
                            && parent_candidate(bs[i].id@) == Some(e@);
                }
            }
            if child_of(bs, e@, x) {
                if linked_child(bs, e@, x) {
                    assert(lv.contains(x));
                    let k = choose|k: int| 0 <= k < lv.len() && lv[k] == x;
                    assert(cv[k] == x);
                } else {
                    let i = choose|i: int|
                        0 <= i < bs.len() && #[trigger] bs[i].id@ == x && inferable(bs[i], bead_ids(bs))
                            && parent_candidate(x) == Some(e@);
                    assert(iv.contains(x));
                    let k = choose|k: int| 0 <= k < iv.len() && iv[k] == x;
                    assert(cv[lv.len() + k] == x);
                }
            }
        }
    }
    // statuses of the children
    let mut statuses: Vec<String> = Vec::new();
    let m = children.len();
    let mut k: usize = 0;
    while k < m
        invariant
            m == children@.len(),
            cv == str_views(children@),
            bs == beads@,
            k <= m,
            statuses@.len() == k,
            forall|q: int| 0 <= q < k ==> Some((#[trigger] statuses@[q])@) == status_of(bs, cv[q]),
            forall|x: Seq<char>| cv.contains(x) <==> child_of(bs, e@, x),
        decreases m - k,
    {
        let st = status_of_exec(beads, children[k].as_str());
        proof {
            assert(cv[k as int] == children@[k as int]@);
            assert(cv.contains(cv[k as int]));
            let x = cv[k as int];
            if !linked_child(bs, e@, x) {
                let i = choose|i: int|
                    0 <= i < bs.len() && #[trigger] bs[i].id@ == x && inferable(bs[i], bead_ids(bs))
                        && parent_candidate(x) == Some(e@);
                lemma_status_of_some(bs, i);
            } else {
                let i = choose|i: int| 0 <= i < bs.len() && #[trigger] bs[i].id@ == x && crate::links::links_to(bs[i], e@);
                lemma_status_of_some(bs, i);
            }
        }
        let s = st.unwrap();
        statuses.push(s);
        k += 1;
    }
    let mut refs: Vec<&str> = Vec::new();
    let mut q: usize = 0;
    while q < m
        invariant
            m == statuses@.len(),
            q <= m,
            refs@.len() == q,
            forall|t: int| 0 <= t < q ==> (#[trigger] refs@[t])@ == statuses@[t]@,
        decreases m - q,
    {
        refs.push(statuses[q].as_str());
        q += 1;
    }
    let r = compute_epic_status_from_children(refs.as_slice());
    proof {
        let sv = views_of_strs(refs@);
        assert(sv.len() == m);
        assert forall|t: int| 0 <= t < m implies Some(#[trigger] sv[t]) == status_of(bs, cv[t]) by {
            assert(sv[t] == refs@[t]@);
        }
        assert((exists|x: Seq<char>| child_of(bs, e@, x)) <==> sv.len() > 0) by {
            if exists|x: Seq<char>| child_of(bs, e@, x) {
                let x = choose|x: Seq<char>| child_of(bs, e@, x);
                assert(cv.contains(x));
            }
            if sv.len() > 0 {
                assert(cv.contains(cv[0]));
            }
        }
        assert((exists|x: Seq<char>| child_of(bs, e@, x) && status_of(bs, x) == Some("in_progress"@))
            <==> sv.contains("in_progress"@)) by {
            if exists|x: Seq<char>| child_of(bs, e@, x) && status_of(bs, x) == Some("in_progress"@) {
                let x = choose|x: Seq<char>| child_of(bs, e@, x) && status_of(bs, x) == Some("in_progress"@);
                assert(cv.contains(x));
                let t = choose|t: int| 0 <= t < cv.len() && cv[t] == x;
                assert(Some(sv[t]) == status_of(bs, cv[t]));
            }
            if sv.contains("in_progress"@) {
                let t = choose|t: int| 0 <= t < sv.len() && sv[t] == "in_progress"@;
                assert(Some(sv[t]) == status_of(bs, cv[t]));
                assert(cv.contains(cv[t]));
            }
        }
        assert((forall|x: Seq<char>|
            child_of(bs, e@, x) ==> status_of(bs, x) == Some("inreview"@) || status_of(bs, x) == Some(
                "closed"@,
            )) <==> (forall|t: int| 0 <= t < sv.len() ==> #[trigger] sv[t] == "inreview"@ || sv[t] == "closed"@)) by {
            if forall|x: Seq<char>|
                child_of(bs, e@, x) ==> status_of(bs, x) == Some("inreview"@) || status_of(bs, x) == Some(
                    "closed"@,
                ) {
                assert forall|t: int| 0 <= t < sv.len() implies #[trigger] sv[t] == "inreview"@ || sv[t]
                    == "closed"@ by {
                    assert(Some(sv[t]) == status_of(bs, cv[t]));
                    assert(cv.contains(cv[t]));
                }
            }
            if forall|t: int| 0 <= t < sv.len() ==> #[trigger] sv[t] == "inreview"@ || sv[t] == "closed"@ {
                assert forall|x: Seq<char>| child_of(bs, e@, x) implies status_of(bs, x) == Some("inreview"@)
                    || status_of(bs, x) == Some("closed"@) by {
                    assert(cv.contains(x));
                    let t = choose|t: int| 0 <= t < cv.len() && cv[t] == x;
                    assert(Some(sv[t]) == status_of(bs, cv[t]));
                }
            }
        }
        assert((forall|x: Seq<char>| child_of(bs, e@, x) ==> status_of(bs, x) == Some("open"@)) <==> (
        forall|t: int| 0 <= t < sv.len() ==> #[trigger] sv[t] == "open"@)) by {
            if forall|x: Seq<char>| child_of(bs, e@, x) ==> status_of(bs, x) == Some("open"@) {
                assert forall|t: int| 0 <= t < sv.len() implies #[trigger] sv[t] == "open"@ by {
                    assert(Some(sv[t]) == status_of(bs, cv[t]));
                    assert(cv.contains(cv[t]));
                }
            }
            if forall|t: int| 0 <= t < sv.len() ==> #[trigger] sv[t] == "open"@ {
                assert forall|x: Seq<char>| child_of(bs, e@, x) implies status_of(bs, x) == Some("open"@) by {
                    assert(cv.contains(x));
                    let t = choose|t: int| 0 <= t < cv.len() && cv[t] == x;
                    assert(Some(sv[t]) == status_of(bs, cv[t]));
                }
            }
        }
    }
    r
}

/// The epics whose status follows from their children, with their new
/// status, in bead order: open epics (not `closed`) whose children call for
/// a status other than their current one.
pub fn compute_epic_updates(beads: &Vec<Bead>) -> (r: Vec<(String, String)>)
    ensures
        pair_views(r@) == epic_updates_spec(beads@, beads@),
{
    let ids = collect_ids(beads);
    let (_stage, cands, inf) = collect_inference(beads, &ids);
    let pairs = link_pairs(beads);
    let mut r: Vec<(String, String)> = Vec::new();
    let n = beads.len();
    let mut j: usize = 0;
    while j < n
        invariant
            n == beads@.len(),
            j <= n,
            str_views(ids@) == bead_ids(beads@),
            cands@.len() == beads@.len(),
            inf@.len() == beads@.len(),
            forall|i: int| 0 <= i < beads@.len() ==> opt_view(#[trigger] cands@[i]) == parent_candidate(beads@[i].id@),
            forall|i: int| 0 <= i < beads@.len() ==> #[trigger] inf@[i] == inferable(beads@[i], bead_ids(beads@)),
            forall|p: Seq<char>, x: Seq<char>| pair_in(pairs@, p, x) <==> linked_child(beads@, p, x),
            pair_views(r@) == epic_updates_spec(beads@, beads@.take(j as int)),
        decreases n - j,
    {
        let b = &beads[j];
        let ghost t = beads@.take(j + 1);
        assert(t.drop_last() =~= beads@.take(j as int));
        assert(t.last() == *b);
        let is_epic = match &b.issue_type {
            Some(it) => str_eq(it.as_str(), "epic"),
            None => false,
        };
        if is_epic && !str_eq(b.status.as_str(), "closed") {
            let target = epic_target_exec(beads, &ids, &cands, &inf, &pairs, b.id.as_str());
            match target {
                Some(ns) => {
                    if !str_eq(b.status.as_str(), ns) {
                        r.push((b.id.clone(), crate::text::string_of(crate::text::chars_of(ns).as_slice())));
                    }
                },
                None => {},
            }
        }
        j += 1;
        assert(pair_views(r@) =~= epic_updates_spec(beads@, beads@.take(j as int)));
    }
    assert(beads@.take(n as int) =~= beads@);
    r
}

// ===== Writing updated statuses back to the raw JSONL lines =====

/// One status write: line `line` of the JSONL file holds epic `epic_id`,
/// whose status becomes `status`.
#[derive(Debug)]
pub struct EpicStatusWrite {
    pub line: usize,
    pub epic_id: String,
    pub status: String,
}

/// The ids of lines, as character sequences.
pub open spec fn id_views(line_ids: Seq<Option<String>>) -> Seq<Option<Seq<char>>> {
    line_ids.map_values(|o: Option<String>| opt_view(o))
}

/// The first line whose `id` is `id`.
pub open spec fn line_of(line_ids: Seq<Option<Seq<char>>>, id: Seq<char>) -> Option<int>
    decreases line_ids.len(),
{
    if line_ids.len() == 0 {
        None
    } else {
        match line_of(line_ids.drop_last(), id) {
            Some(k) => Some(k),
            None => if line_ids.last() == Some(id) {
                Some(line_ids.len() - 1)
            } else {
                None
            },
        }
    }
}

/// The writes for the updates of `updates`, in order: each update whose
/// epic has a line is written to the first such line.
pub open spec fn writes_spec(line_ids: Seq<Option<Seq<char>>>, updates: Seq<(Seq<char>, Seq<char>)>) -> Seq<
    (int, Seq<char>, Seq<char>),
>
    decreases updates.len(),
{
    if updates.len() == 0 {
        seq![]
    } else {
        let r = writes_spec(line_ids, updates.drop_last());
        match line_of(line_ids, updates.last().0) {
            Some(k) => r.push((k, updates.last().0, updates.last().1)),
            None => r,
        }
    }
}

/// The views of status writes.
pub open spec fn write_views(w: Seq<EpicStatusWrite>) -> Seq<(int, Seq<char>, Seq<char>)> {
    w.map_values(|x: EpicStatusWrite| (x.line as int, x.epic_id@, x.status@))
}

/// The first line whose `id` is `id`.
fn line_of_exec(line_ids: &Vec<Option<String>>, id: &str) -> (r: Option<usize>)
    ensures
        match r {
            Some(k) => line_of(id_views(line_ids@), id@) == Some(k as int),
            None => line_of(id_views(line_ids@), id@) is None,
        },
{
    let ghost ls = id_views(line_ids@);
    let n = line_ids.len();
    let mut i: usize = 0;
    assert(ls.take(0) =~= Seq::<Option<Seq<char>>>::empty());
    while i < n
        invariant
            n == line_ids@.len(),
            ls == id_views(line_ids@),
            i <= n,
            line_of(ls.take(i as int), id@) is None,
        decreases n - i,
    {
        let ghost t = ls.take(i + 1);
        assert(t.drop_last() =~= ls.take(i as int));
        assert(t.last() == opt_view(line_ids@[i as int]));
        let hit = match &line_ids[i] {
            Some(l) => str_eq(l.as_str(), id),
            None => false,
        };
        if hit {
            proof {
                lemma_line_of_prefix(ls, id@, i + 1);
            }
            return Some(i);
        }
        i += 1;
    }
    assert(ls.take(n as int) =~= ls);
    None
}

proof fn lemma_line_of_prefix(ls: Seq<Option<Seq<char>>>, id: Seq<char>, i: int)
    requires
        0 <= i <= ls.len(),
        line_of(ls.take(i), id) is Some,
    ensures
        line_of(ls, id) == line_of(ls.take(i), id),
    decreases ls.len() - i,
{
    if i < ls.len() {
        let t = ls.take(i + 1);
        assert(t.drop_last() =~= ls.take(i));
        lemma_line_of_prefix(ls, id, i + 1);
    } else {
        assert(ls.take(i) =~= ls);
    }
}

/// Plans the line writes for epic status updates: for each update in order,
/// the first line carrying the epic's id.
pub fn plan_epic_status_writes(line_ids: &Vec<Option<String>>, updates: &Vec<(String, String)>) -> (r:
    Vec<EpicStatusWrite>)
    ensures
        write_views(r@) == writes_spec(id_views(line_ids@), pair_views(updates@)),
{
    let ghost ls = id_views(line_ids@);
    let ghost us = pair_views(updates@);
    let mut r: Vec<EpicStatusWrite> = Vec::new();
    let n = updates.len();
    let mut i: usize = 0;
    while i < n
        invariant
            n == updates@.len(),
            ls == id_views(line_ids@),
            us == pair_views(updates@),
            i <= n,
            write_views(r@) == writes_spec(ls, us.take(i as int)),
        decreases n - i,
    {
        let ghost t = us.take(i + 1);
        assert(t.drop_last() =~= us.take(i as int));
        assert(t.last() == (updates@[i as int].0@, updates@[i as int].1@));
        match line_of_exec(line_ids, updates[i].0.as_str()) {
            Some(k) => {
                r.push(
                    EpicStatusWrite {
                        line: k,
                        epic_id: updates[i].0.clone(),
                        status: updates[i].1.clone(),
                    },
                );
            },
            None => {},
        }
        i += 1;
        assert(write_views(r@) =~= writes_spec(ls, us.take(i as int)));
    }
    assert(us.take(n as int) =~= us);
    r
}

} // verus!
