//! Parent/child and dependency links between beads: resolution of both
//! dependency formats, parent inference from dotted ids (`64n.1` is a child
//! of `64n`), and the children lists that post-processing attaches.

use vstd::prelude::*;
use crate::beads::{
    Bead, clone_opt_string, contains_string, LegacyDependency, RawDependencies, opt_view, opt_views, same_content, str_views,
};
use crate::text::{
    chars_of, lemma_lt_total, lemma_lt_transitive, rfind_char, seq_lt, str_eq, str_lt, string_of,
    sub_chars,
};

verus! {

// ===== Specification =====

/// A legacy dependency of type `parent-child`.
pub open spec fn is_pc(d: LegacyDependency) -> bool {
    d.dep_type@ == "parent-child"@
}

/// A legacy dependency of type `relates-to`.
pub open spec fn is_rel(d: LegacyDependency) -> bool {
    d.dep_type@ == "relates-to"@
}

/// The parent after reading legacy dependencies: the target of the last
/// `parent-child` dependency, else `cur`.
pub open spec fn legacy_parent(deps: Seq<LegacyDependency>, cur: Option<Seq<char>>) -> Option<
    Seq<char>,
>
    decreases deps.len(),
{
    if deps.len() == 0 {
        cur
    } else if is_pc(deps.last()) {
        Some(deps.last().depends_on_id@)
    } else {
        legacy_parent(deps.drop_last(), cur)
    }
}

/// Targets of the `relates-to` legacy dependencies, in order.
pub open spec fn related_ids(deps: Seq<LegacyDependency>) -> Seq<Seq<char>>
    decreases deps.len(),
{
    if deps.len() == 0 {
        seq![]
    } else if is_rel(deps.last()) {
        related_ids(deps.drop_last()).push(deps.last().depends_on_id@)
    } else {
        related_ids(deps.drop_last())
    }
}

/// Targets of the other (blocking) legacy dependencies, in order.
pub open spec fn blocking_ids(deps: Seq<LegacyDependency>) -> Seq<Seq<char>>
    decreases deps.len(),
{
    if deps.len() == 0 {
        seq![]
    } else if !is_pc(deps.last()) && !is_rel(deps.last()) {
        blocking_ids(deps.drop_last()).push(deps.last().depends_on_id@)
    } else {
        blocking_ids(deps.drop_last())
    }
}

/// A bead's parent once its dependencies are read.
pub open spec fn stage_parent(b: Bead) -> Option<Seq<char>> {
    match b.dependencies {
        Some(RawDependencies::Legacy(d)) => legacy_parent(d@, opt_view(b.parent_id)),
        _ => opt_view(b.parent_id),
    }
}

/// A bead's blocking dependencies once its raw dependencies are read; an
/// explicit `deps` field is kept.
pub open spec fn stage_deps(b: Bead) -> Option<Seq<Seq<char>>> {
    match b.dependencies {
        Some(RawDependencies::Legacy(d)) => if blocking_ids(d@).len() > 0 && b.deps is None {
            Some(blocking_ids(d@))
        } else {
            opt_views(b.deps)
        },
        Some(RawDependencies::StringIds(ids)) => if ids@.len() > 0 && b.deps is None {
            Some(str_views(ids@))
        } else {
            opt_views(b.deps)
        },
        None => opt_views(b.deps),
    }
}

/// A bead's related ids once its raw dependencies are read; an explicit
/// `relates_to` field is kept.
pub open spec fn stage_relates(b: Bead) -> Option<Seq<Seq<char>>> {
    match b.dependencies {
        Some(RawDependencies::Legacy(d)) => if related_ids(d@).len() > 0 && b.relates_to is None {
            Some(related_ids(d@))
        } else {
            opt_views(b.relates_to)
        },
        _ => opt_views(b.relates_to),
    }
}

/// The bead has a legacy `parent-child` dependency on `p`.
pub open spec fn has_pc_dep_to(b: Bead, p: Seq<char>) -> bool {
    match b.dependencies {
        Some(RawDependencies::Legacy(d)) => exists|k: int|
            0 <= k < d@.len() && is_pc(#[trigger] d@[k]) && d@[k].depends_on_id@ == p,
        _ => false,
    }
}

/// The bead names `p` as its parent, explicitly or through a dependency.
pub open spec fn links_to(b: Bead, p: Seq<char>) -> bool {
    has_pc_dep_to(b, p) || stage_parent(b) == Some(p)
}

/// `x` is the id of a bead that names `p` as its parent.
pub open spec fn linked_child(beads: Seq<Bead>, p: Seq<char>, x: Seq<char>) -> bool {
    exists|i: int| 0 <= i < beads.len() && #[trigger] beads[i].id@ == x && links_to(beads[i], p)
}

/// The ids of the beads, in order.
pub open spec fn bead_ids(beads: Seq<Bead>) -> Seq<Seq<char>> {
    beads.map_values(|b: Bead| b.id@)
}

/// `k` is the position of the last `.` in `id`.
pub open spec fn last_dot(id: Seq<char>, k: int) -> bool {
    0 <= k < id.len() && id[k] == '.' && forall|j: int| k < j < id.len() ==> id[j] != '.'
}

/// The id of the parent that a dotted id points to: everything before the last `.`.
pub open spec fn parent_candidate(id: Seq<char>) -> Option<Seq<char>> {
    if id.contains('.') {
        Some(id.take(choose|k: int| last_dot(id, k)))
    } else {
        None
    }
}

/// The bead has no parent and its dotted id points to a bead among `all`.
pub open spec fn inferable(b: Bead, all: Seq<Seq<char>>) -> bool {
    &&& stage_parent(b) is None
    &&& match parent_candidate(b.id@) {
        Some(c) => all.contains(c),
        None => false,
    }
}

/// Ids of the beads whose parent `p` is inferred from their id, in order.
pub open spec fn inferred_children(beads: Seq<Bead>, all: Seq<Seq<char>>, p: Seq<char>) -> Seq<
    Seq<char>,
>
    decreases beads.len(),
{
    if beads.len() == 0 {
        seq![]
    } else {
        let r = inferred_children(beads.drop_last(), all, p);
        let b = beads.last();
        if inferable(b, all) && parent_candidate(b.id@) == Some(p) {
            r.push(b.id@)
        } else {
            r
        }
    }
}

/// No bead before position `j` has the same id.
pub open spec fn first_with_id(beads: Seq<Bead>, j: int) -> bool {
    forall|k: int| 0 <= k < j ==> beads[k].id@ != beads[j].id@
}

/// Some bead with id `id` gets its parent inferred.
pub open spec fn inferred_for_id(beads: Seq<Bead>, id: Seq<char>) -> bool {
    exists|i: int| 0 <= i < beads.len() && #[trigger] beads[i].id@ == id && inferable(beads[i], bead_ids(beads))
}

/// The parent of bead `j` after post-processing: an inferred parent is
/// set on the first bead carrying the inferred id.
pub open spec fn final_parent(beads: Seq<Bead>, j: int) -> Option<Seq<char>> {
    if first_with_id(beads, j) && inferred_for_id(beads, beads[j].id@) {
        parent_candidate(beads[j].id@)
    } else {
        stage_parent(beads[j])
    }
}

/// Strictly increasing in lexicographic order (sorted, no duplicates).
pub open spec fn sorted_strict(s: Seq<Seq<char>>) -> bool {
    forall|i: int, j: int| 0 <= i < j < s.len() ==> seq_lt(#[trigger] s[i], #[trigger] s[j])
}

/// The bead with id `p` gets a children list.
pub open spec fn has_children(beads: Seq<Bead>, p: Seq<char>) -> bool {
    (exists|x: Seq<char>| linked_child(beads, p, x)) || inferred_children(beads, bead_ids(beads), p).len() > 0
}

/// `c` is the children list of `p`: the linked children sorted without
/// duplicates, followed by the inferred children in order.
pub open spec fn children_ok(beads: Seq<Bead>, p: Seq<char>, c: Seq<Seq<char>>) -> bool {
    let inf = inferred_children(beads, bead_ids(beads), p);
    let k = c.len() - inf.len();
    &&& k >= 0
    &&& c.skip(k) == inf
    &&& sorted_strict(c.take(k))
    &&& forall|x: Seq<char>| c.take(k).contains(x) <==> linked_child(beads, p, x)
}

/// `r` is `beads` after post-processing.
pub open spec fn post_processed(beads: Seq<Bead>, r: Seq<Bead>) -> bool {
    &&& r.len() == beads.len()
    &&& forall|j: int|
        0 <= j < r.len() ==> {
            &&& same_content(#[trigger] r[j], beads[j])
            &&& r[j].dependencies is None
            &&& opt_view(r[j].parent_id) == final_parent(beads, j)
            &&& opt_views(r[j].deps) == stage_deps(beads[j])
            &&& opt_views(r[j].relates_to) == stage_relates(beads[j])
            &&& if has_children(beads, beads[j].id@) {
                &&& r[j].children is Some
                &&& children_ok(beads, beads[j].id@, str_views(r[j].children.unwrap()@))
            } else {
                r[j].children == beads[j].children
            }
        }
}

// ===== Reading dependencies =====

/// Resolves legacy dependencies: the resulting parent (starting from
/// `cur`), the related ids and the blocking ids.
fn resolve_legacy(deps: &Vec<LegacyDependency>, cur: Option<String>) -> (r: (
    Option<String>,
    Vec<String>,
    Vec<String>,
))
    ensures
        opt_view(r.0) == legacy_parent(deps@, opt_view(cur)),
        str_views(r.1@) == related_ids(deps@),
        str_views(r.2@) == blocking_ids(deps@),
{
    proof {
        reveal_strlit("parent-child");
        reveal_strlit("relates-to");
        assert("parent-child"@.len() != "relates-to"@.len());
    }
    let mut parent = cur;
    let mut related: Vec<String> = Vec::new();
    let mut blocking: Vec<String> = Vec::new();
    let n = deps.len();
    let mut i: usize = 0;
    assert(deps@.take(0) =~= Seq::<LegacyDependency>::empty());
    while i < n
        invariant
            n == deps@.len(),
            i <= n,
            "parent-child"@ != "relates-to"@,
            opt_view(parent) == legacy_parent(deps@.take(i as int), opt_view(cur)),
            str_views(related@) == related_ids(deps@.take(i as int)),
            str_views(blocking@) == blocking_ids(deps@.take(i as int)),
        decreases n - i,
    {
        let d = &deps[i];
        let ghost pre = deps@.take(i as int);
        let ghost next = deps@.take(i + 1);
        assert(next.drop_last() =~= pre);
        assert(next.last() == *d);
        if str_eq(d.dep_type.as_str(), "parent-child") {
            parent = Some(d.depends_on_id.clone());
        } else if str_eq(d.dep_type.as_str(), "relates-to") {
            related.push(d.depends_on_id.clone());
        } else {
            blocking.push(d.depends_on_id.clone());
        }
        i += 1;
        assert(str_views(related@) =~= related_ids(deps@.take(i as int)));
        assert(str_views(blocking@) =~= blocking_ids(deps@.take(i as int)));
    }
    assert(deps@.take(n as int) =~= deps@);
    (parent, related, blocking)
}

/// The parent a bead names once its dependencies are read.
pub fn stage_parent_of(b: &Bead) -> (r: Option<String>)
    ensures
        opt_view(r) == stage_parent(*b),
{
    match &b.dependencies {
        Some(RawDependencies::Legacy(d)) => {
            let (p, _, _) = resolve_legacy(d, clone_opt_string(&b.parent_id));
            p
        },
        _ => clone_opt_string(&b.parent_id),
    }
}

/// A bead with its raw dependencies read into `parent_id`, `deps` and
/// `relates_to`, and dropped.
pub fn stage_bead(b: Bead) -> (r: Bead)
    ensures
        same_content(r, b),
        r.dependencies is None,
        opt_view(r.parent_id) == stage_parent(b),
        opt_views(r.deps) == stage_deps(b),
        opt_views(r.relates_to) == stage_relates(b),
        r.children == b.children,
{
    let ghost b0 = b;
    let Bead {
        id,
        title,
        description,
        status,
        priority,
        issue_type,
        owner,
        created_at,
        created_by,
        updated_at,
        closed_at,
        close_reason,
        comments,
        parent_id,
        children,
        design_doc,
        deps,
        relates_to,
        dependencies,
    } = b;
    let mut parent_id = parent_id;
    let mut deps = deps;
    let mut relates_to = relates_to;
    match dependencies {
        Some(RawDependencies::Legacy(legacy)) => {
            let (p, related, blocking) = resolve_legacy(&legacy, parent_id);
            parent_id = p;
            if blocking.len() > 0 && deps.is_none() {
                deps = Some(blocking);
            }
            if related.len() > 0 && relates_to.is_none() {
                relates_to = Some(related);
            }
        },
        Some(RawDependencies::StringIds(ids)) => {
            if ids.len() > 0 && deps.is_none() {
                deps = Some(ids);
            }
        },
        None => {},
    }
    Bead {
        id,
        title,
        description,
        status,
        priority,
        issue_type,
        owner,
        created_at,
        created_by,
        updated_at,
        closed_at,
        close_reason,
        comments,
        parent_id,
        children,
        design_doc,
        deps,
        relates_to,
        dependencies: None,
    }
}

// ===== Links between beads =====

/// `(p, x)` occurs among the pairs (by value).
pub open spec fn pair_in(r: Seq<(String, String)>, p: Seq<char>, x: Seq<char>) -> bool {
    exists|m: int| 0 <= m < r.len() && (#[trigger] r[m]).0@ == p && r[m].1@ == x
}

proof fn lemma_linked_child_step(beads: Seq<Bead>, i: int, p: Seq<char>, x: Seq<char>)
    requires
        0 <= i < beads.len(),
    ensures
        linked_child(beads.take(i + 1), p, x) <==> (linked_child(beads.take(i), p, x) || (
        beads[i].id@ == x && links_to(beads[i], p))),
{
    let t1 = beads.take(i + 1);
    let t0 = beads.take(i);
    if linked_child(t1, p, x) {
        let w = choose|w: int| 0 <= w < t1.len() && #[trigger] t1[w].id@ == x && links_to(t1[w], p);
        if w < i {
            assert(t0[w] == t1[w]);
        } else {
            assert(t1[w] == beads[i]);
        }
    }
    if linked_child(t0, p, x) {
        let w = choose|w: int| 0 <= w < t0.len() && #[trigger] t0[w].id@ == x && links_to(t0[w], p);
        assert(t1[w] == t0[w]);
    }
    if beads[i].id@ == x && links_to(beads[i], p) {
        assert(t1[i] == beads[i]);
    }
}

/// All (parent, child) pairs that beads state, by value: `x` is paired
/// with `p` exactly when a bead with id `x` names `p` as its parent.
pub(crate) fn link_pairs(beads: &Vec<Bead>) -> (r: Vec<(String, String)>)
    ensures
        forall|p: Seq<char>, x: Seq<char>| pair_in(r@, p, x) <==> linked_child(beads@, p, x),
{
    let mut r: Vec<(String, String)> = Vec::new();
    let n = beads.len();
    let mut i: usize = 0;
    while i < n
        invariant
            n == beads@.len(),
            i <= n,
            forall|p: Seq<char>, x: Seq<char>|
                pair_in(r@, p, x) <==> linked_child(beads@.take(i as int), p, x),
        decreases n - i,
    {
        let b = &beads[i];
        let ghost r0 = r@;
        match &b.dependencies {
            Some(RawDependencies::Legacy(d)) => {
                let m = d.len();
                let mut k: usize = 0;
                while k < m
                    invariant
                        m == d@.len(),
                        k <= m,
                        forall|p: Seq<char>, x: Seq<char>|
                            #![trigger pair_in(r@, p, x)]
                            #![trigger pair_in(r0, p, x)]
                            pair_in(r@, p, x) <==> (pair_in(r0, p, x) || (x == b.id@ && exists|k2: int|
                                0 <= k2 < k && is_pc(#[trigger] d@[k2]) && d@[k2].depends_on_id@ == p)),
                    decreases m - k,
                {
                    let ghost r1 = r@;
                    let ghost k0 = k as int;
                    let pc = str_eq(d[k].dep_type.as_str(), "parent-child");
                    if pc {
                        r.push((d[k].depends_on_id.clone(), b.id.clone()));
                    }
                    k += 1;
                    proof {
                        assert forall|p: Seq<char>, x: Seq<char>|
                            pair_in(r@, p, x) implies (pair_in(r0, p, x) || (x == b.id@ && exists|k2: int|
                                0 <= k2 < k && is_pc(#[trigger] d@[k2]) && d@[k2].depends_on_id@ == p)) by {
                            let w = choose|w: int| 0 <= w < r@.len() && (#[trigger] r@[w]).0@ == p && r@[w].1@ == x;
                            if w < r1.len() {
                                assert(r1[w] == r@[w]);
                                assert(pair_in(r1, p, x));
                                if !pair_in(r0, p, x) {
                                    let k2 = choose|k2: int|
                                        0 <= k2 < k0 && is_pc(#[trigger] d@[k2]) && d@[k2].depends_on_id@ == p;
                                    assert(0 <= k2 < k && is_pc(d@[k2]) && d@[k2].depends_on_id@ == p);
                                }
                            } else {
                                assert(is_pc(d@[k0]) && d@[k0].depends_on_id@ == p);
                            }
                        }
                        assert forall|p: Seq<char>, x: Seq<char>|
                            (pair_in(r0, p, x) || (x == b.id@ && exists|k2: int|
                                0 <= k2 < k && is_pc(#[trigger] d@[k2]) && d@[k2].depends_on_id@ == p))
                            implies pair_in(r@, p, x) by {
                            if pair_in(r0, p, x) {
                                assert(pair_in(r1, p, x));
                                let w = choose|w: int| 0 <= w < r1.len() && (#[trigger] r1[w]).0@ == p && r1[w].1@ == x;
                                assert(r@[w] == r1[w]);
                            } else {
                                let k2 = choose|k2: int|
                                    0 <= k2 < k && is_pc(#[trigger] d@[k2]) && d@[k2].depends_on_id@ == p;
                                if k2 < k0 {
                                    assert(pair_in(r1, p, x));
                                    let w = choose|w: int| 0 <= w < r1.len() && (#[trigger] r1[w]).0@ == p && r1[w].1@ == x;
                                    assert(r@[w] == r1[w]);
                                } else {
                                    assert(pc);
                                    let last = r@.len() - 1;
                                    assert(r@[last].0@ == p && r@[last].1@ == x);
                                }
                            }
                        }
                    }
                }
                assert forall|p: Seq<char>, x: Seq<char>|
                    pair_in(r@, p, x) <==> (pair_in(r0, p, x) || (x == b.id@ && has_pc_dep_to(*b, p))) by {
                    assert(b.dependencies == Some(RawDependencies::Legacy(*d)));
                    assert(k == m);
                    assert(has_pc_dep_to(*b, p) <==> exists|k2: int|
                        0 <= k2 < m && is_pc(#[trigger] d@[k2]) && d@[k2].depends_on_id@ == p);
                    assert(pair_in(r@, p, x) <==> (pair_in(r0, p, x) || (x == b.id@ && exists|k2: int|
                                0 <= k2 < k && is_pc(#[trigger] d@[k2]) && d@[k2].depends_on_id@ == p)));
                }
            },
            _ => {
                assert forall|p: Seq<char>, x: Seq<char>|
                    pair_in(r@, p, x) <==> (pair_in(r0, p, x) || (x == b.id@ && has_pc_dep_to(*b, p))) by {
                }
            },
        }
        let ghost r2 = r@;
        let sp = stage_parent_of(b);
        if let Some(p) = sp {
            r.push((p, b.id.clone()));
        }
        proof {
            assert(beads@[i as int] == *b);
            assert forall|p: Seq<char>, x: Seq<char>|
                pair_in(r@, p, x) implies linked_child(beads@.take(i + 1), p, x) by {
                lemma_linked_child_step(beads@, i as int, p, x);
                let w = choose|w: int| 0 <= w < r@.len() && (#[trigger] r@[w]).0@ == p && r@[w].1@ == x;
                if w < r2.len() {
                    assert(r2[w] == r@[w]);
                    assert(pair_in(r2, p, x));
                } else {
                    assert(stage_parent(*b) == Some(p));
                    assert(links_to(*b, p));
                }
            }
            assert forall|p: Seq<char>, x: Seq<char>|
                linked_child(beads@.take(i + 1), p, x) implies pair_in(r@, p, x) by {
                lemma_linked_child_step(beads@, i as int, p, x);
                if linked_child(beads@.take(i as int), p, x) || (x == b.id@ && has_pc_dep_to(*b, p)) {
                    assert(pair_in(r2, p, x));
                    let w = choose|w: int| 0 <= w < r2.len() && (#[trigger] r2[w]).0@ == p && r2[w].1@ == x;
                    assert(r@[w] == r2[w]);
                } else {
                    assert(stage_parent(*b) == Some(p));
                    let last = r@.len() - 1;
                    assert(r@[last].0@ == p && r@[last].1@ == x);
                }
            }
        }
        i += 1;
    }
    assert(beads@.take(n as int) =~= beads@);
    r
}

/// Inserts `x` into a strictly sorted vector unless an equal string is there.
fn insert_sorted_unique(v: &mut Vec<String>, x: String)
    requires
        sorted_strict(str_views(old(v)@)),
    ensures
        sorted_strict(str_views(final(v)@)),
        forall|y: Seq<char>|
            str_views(final(v)@).contains(y) <==> (str_views(old(v)@).contains(y) || y == x@),
{
    let ghost s0 = str_views(v@);
    let n = v.len();
    let mut i: usize = 0;
    while i < n && str_lt(v[i].as_str(), x.as_str())
        invariant
            n == v@.len(),
            s0 == str_views(v@),
            i <= n,
            forall|k: int| 0 <= k < i ==> seq_lt(#[trigger] s0[k], x@),
        decreases n - i,
    {
        i += 1;
    }
    if i < n && str_eq(v[i].as_str(), x.as_str()) {
        assert(s0[i as int] == x@);
        return;
    }
    let ghost xv = x@;
    v.insert(i, x);
    proof {
        let s1 = str_views(v@);
        assert(s1 =~= s0.insert(i as int, xv));
        if i < n {
            lemma_lt_total(s0[i as int], xv);
        }
        assert forall|a: int, b: int| 0 <= a < b < s1.len() implies seq_lt(#[trigger] s1[a], #[trigger] s1[b]) by {
            if b < i {
                assert(s1[a] == s0[a] && s1[b] == s0[b]);
            } else if b == i {
                assert(s1[b] == xv && s1[a] == s0[a]);
            } else if a < i {
                assert(s1[a] == s0[a] && s1[b] == s0[b - 1]);
                assert(seq_lt(s0[a], xv));
                assert(seq_lt(xv, s0[i as int]));
                if b - 1 > i {
                    lemma_lt_transitive(xv, s0[i as int], s0[b - 1]);
                }
                lemma_lt_transitive(s0[a], xv, s0[b - 1]);
            } else if a == i {
                assert(s1[a] == xv && s1[b] == s0[b - 1]);
                if b - 1 > i {
                    lemma_lt_transitive(xv, s0[i as int], s0[b - 1]);
                }
            } else {
                assert(s1[a] == s0[a - 1] && s1[b] == s0[b - 1]);
            }
        }
        assert forall|y: Seq<char>| s1.contains(y) <==> (s0.contains(y) || y == xv) by {
            if s1.contains(y) {
                let w = choose|w: int| 0 <= w < s1.len() && s1[w] == y;
                if w < i {
                    assert(s0[w] == y);
                } else if w > i {
                    assert(s0[w - 1] == y);
                }
            }
            if s0.contains(y) {
                let w = choose|w: int| 0 <= w < s0.len() && s0[w] == y;
                if w < i {
                    assert(s1[w] == y);
                } else {
                    assert(s1[w + 1] == y);
                }
            }
            if y == xv {
                assert(s1[i as int] == y);
            }
        }
    }
}

/// The children of `p` among the pairs, sorted and without duplicates.
pub(crate) fn sorted_children(pairs: &Vec<(String, String)>, p: &str) -> (r: Vec<String>)
    ensures
        sorted_strict(str_views(r@)),
        forall|x: Seq<char>| str_views(r@).contains(x) <==> pair_in(pairs@, p@, x),
{
    let mut r: Vec<String> = Vec::new();
    let n = pairs.len();
    let mut i: usize = 0;
    while i < n
        invariant
            n == pairs@.len(),
            i <= n,
            sorted_strict(str_views(r@)),
            forall|x: Seq<char>| str_views(r@).contains(x) <==> pair_in(pairs@.take(i as int), p@, x),
        decreases n - i,
    {
        let ghost r0 = str_views(r@);
        let ghost t0 = pairs@.take(i as int);
        let ghost t1 = pairs@.take(i + 1);
        let is_p = str_eq(pairs[i].0.as_str(), p);
        if is_p {
            insert_sorted_unique(&mut r, pairs[i].1.clone());
        }
        proof {
            assert forall|x: Seq<char>| str_views(r@).contains(x) <==> pair_in(t1, p@, x) by {
                if pair_in(t1, p@, x) {
                    let w = choose|w: int| 0 <= w < t1.len() && (#[trigger] t1[w]).0@ == p@ && t1[w].1@ == x;
                    if w < i {
                        assert(t0[w] == t1[w]);
                        assert(pair_in(t0, p@, x));
                    } else {
                        assert(t1[w] == pairs@[i as int]);
                    }
                }
                if pair_in(t0, p@, x) {
                    let w = choose|w: int| 0 <= w < t0.len() && (#[trigger] t0[w]).0@ == p@ && t0[w].1@ == x;
                    assert(t1[w] == t0[w]);
                }
                if is_p && x == pairs@[i as int].1@ {
                    assert(t1[i as int] == pairs@[i as int]);
                }
            }
        }
        i += 1;
    }
    assert(pairs@.take(n as int) =~= pairs@);
    r
}

/// The id of the parent that a dotted id points to.
pub fn parent_candidate_of(id: &str) -> (r: Option<String>)
    ensures
        opt_view(r) == parent_candidate(id@),
{
    let c = chars_of(id);
    match rfind_char(c.as_slice(), '.') {
        None => None,
        Some(k) => {
            proof {
                assert(id@.contains('.')) by {
                    assert(id@[k as int] == '.');
                }
                assert(last_dot(id@, k as int));
                let k2 = choose|k2: int| last_dot(id@, k2);
                if k2 < k {
                    assert(id@[k as int] == '.');
                } else if k2 > k {
                    assert(id@[k2] == '.');
                }
                assert(k2 == k);
            }
            let prefix = sub_chars(c.as_slice(), 0, k);
            assert(prefix@ =~= id@.take(k as int));
            Some(string_of(prefix.as_slice()))
        },
    }
}

// ===== Post-processing =====

/// The ids of the beads, in order.
pub fn collect_ids(beads: &Vec<Bead>) -> (r: Vec<String>)
    ensures
        str_views(r@) == bead_ids(beads@),
{
    let mut r: Vec<String> = Vec::new();
    let n = beads.len();
    let mut i: usize = 0;
    while i < n
        invariant
            n == beads@.len(),
            i <= n,
            r@.len() == i,
            forall|k: int| 0 <= k < i ==> (#[trigger] r@[k])@ == beads@[k].id@,
        decreases n - i,
    {
        r.push(beads[i].id.clone());
        i += 1;
    }
    assert(str_views(r@) =~= bead_ids(beads@));
    r
}

/// Lengths and elements of equal id views agree.
pub(crate) proof fn lemma_ids_index(ids: Seq<String>, beads: Seq<Bead>)
    requires
        str_views(ids) == bead_ids(beads),
    ensures
        ids.len() == beads.len(),
        forall|k: int| 0 <= k < ids.len() ==> (#[trigger] ids[k])@ == beads[k].id@,
{
    assert(str_views(ids).len() == ids.len());
    assert(bead_ids(beads).len() == beads.len());
    assert forall|k: int| 0 <= k < ids.len() implies (#[trigger] ids[k])@ == beads[k].id@ by {
        assert(str_views(ids)[k] == ids[k]@);
        assert(bead_ids(beads)[k] == beads[k].id@);
    }
}

/// Per bead: its parent once dependencies are read, its dotted-id parent
/// candidate, and whether its parent is inferred.
pub(crate) fn collect_inference(beads: &Vec<Bead>, ids: &Vec<String>) -> (r: (
    Vec<Option<String>>,
    Vec<Option<String>>,
    Vec<bool>,
))
    requires
        str_views(ids@) == bead_ids(beads@),
    ensures
        r.0@.len() == beads@.len(),
        r.1@.len() == beads@.len(),
        r.2@.len() == beads@.len(),
        forall|i: int| 0 <= i < beads@.len() ==> opt_view(#[trigger] r.0@[i]) == stage_parent(beads@[i]),
        forall|i: int| 0 <= i < beads@.len() ==> opt_view(#[trigger] r.1@[i]) == parent_candidate(beads@[i].id@),
        forall|i: int| 0 <= i < beads@.len() ==> #[trigger] r.2@[i] == inferable(beads@[i], bead_ids(beads@)),
{
    let mut stage: Vec<Option<String>> = Vec::new();
    let mut cands: Vec<Option<String>> = Vec::new();
    let mut inf: Vec<bool> = Vec::new();
    let n = beads.len();
    let mut i: usize = 0;
    while i < n
        invariant
            n == beads@.len(),
            str_views(ids@) == bead_ids(beads@),
            i <= n,
            stage@.len() == i,
            cands@.len() == i,
            inf@.len() == i,
            forall|k: int| 0 <= k < i ==> opt_view(#[trigger] stage@[k]) == stage_parent(beads@[k]),
            forall|k: int| 0 <= k < i ==> opt_view(#[trigger] cands@[k]) == parent_candidate(beads@[k].id@),
            forall|k: int| 0 <= k < i ==> #[trigger] inf@[k] == inferable(beads@[k], bead_ids(beads@)),
        decreases n - i,
    {
        let sp = stage_parent_of(&beads[i]);
        let c = parent_candidate_of(beads[i].id.as_str());
        let ok = sp.is_none() && match &c {
            Some(cv) => contains_string(ids, cv.as_str()),
            None => false,
        };
        stage.push(sp);
        cands.push(c);
        inf.push(ok);
        i += 1;
    }
    (stage, cands, inf)
}

/// The inferred children of `p`, computed from the per-bead inference data.
pub(crate) fn inferred_children_of(
    ids: &Vec<String>,
    cands: &Vec<Option<String>>,
    inf: &Vec<bool>,
    p: &str,
    Ghost(beads): Ghost<Seq<Bead>>,
) -> (r: Vec<String>)
    requires
        str_views(ids@) == bead_ids(beads),
        cands@.len() == beads.len(),
        inf@.len() == beads.len(),
        forall|i: int| 0 <= i < beads.len() ==> opt_view(#[trigger] cands@[i]) == parent_candidate(beads[i].id@),
        forall|i: int| 0 <= i < beads.len() ==> #[trigger] inf@[i] == inferable(beads[i], bead_ids(beads)),
    ensures
        str_views(r@) == inferred_children(beads, bead_ids(beads), p@),
{
    let ghost all = bead_ids(beads);
    proof {
        lemma_ids_index(ids@, beads);
    }
    let mut r: Vec<String> = Vec::new();
    let n = ids.len();
    let mut i: usize = 0;
    while i < n
        invariant
            n == beads.len(),
            all == bead_ids(beads),
            str_views(ids@) == all,
            cands@.len() == beads.len(),
            inf@.len() == beads.len(),
            forall|k: int| 0 <= k < beads.len() ==> opt_view(#[trigger] cands@[k]) == parent_candidate(beads[k].id@),
            forall|k: int| 0 <= k < beads.len() ==> #[trigger] inf@[k] == inferable(beads[k], bead_ids(beads)),
            i <= n,
            str_views(r@) == inferred_children(beads.take(i as int), all, p@),
        decreases n - i,
    {
        let ghost t1 = beads.take(i + 1);
        assert(t1.drop_last() =~= beads.take(i as int));
        assert(t1.last() == beads[i as int]);
        proof {
            lemma_ids_index(ids@, beads);
        }
        let hit = inf[i] && match &cands[i] {
            Some(c) => str_eq(c.as_str(), p),
            None => false,
        };
        if hit {
            r.push(ids[i].clone());
        }
        i += 1;
        assert(str_views(r@) =~= inferred_children(beads.take(i as int), all, p@));
    }
    assert(beads.take(n as int) =~= beads);
    r
}

/// Whether bead `j` is the first carrying its id, and whether some bead
/// with that id gets its parent inferred.
fn id_flags(ids: &Vec<String>, inf: &Vec<bool>, j: usize, Ghost(beads): Ghost<Seq<Bead>>) -> (r: (
    bool,
    bool,
))
    requires
        str_views(ids@) == bead_ids(beads),
        inf@.len() == beads.len(),
        j < beads.len(),
        forall|i: int| 0 <= i < beads.len() ==> #[trigger] inf@[i] == inferable(beads[i], bead_ids(beads)),
    ensures
        r.0 == first_with_id(beads, j as int),
        r.1 == inferred_for_id(beads, beads[j as int].id@),
{
    proof {
        lemma_ids_index(ids@, beads);
    }
    let n = ids.len();
    let mut first = true;
    let mut k: usize = 0;
    while k < j
        invariant
            n == beads.len(),
            str_views(ids@) == bead_ids(beads),
            j < n,
            k <= j,
            first == (forall|q: int| 0 <= q < k ==> beads[q].id@ != beads[j as int].id@),
        decreases j - k,
    {
        proof {
            lemma_ids_index(ids@, beads);
        }
        if str_eq(ids[k].as_str(), ids[j].as_str()) {
            first = false;
        }
        k += 1;
    }
    let mut found = false;
    let mut i: usize = 0;
    while i < n
        invariant
            n == beads.len(),
            str_views(ids@) == bead_ids(beads),
            inf@.len() == beads.len(),
            forall|q: int| 0 <= q < beads.len() ==> #[trigger] inf@[q] == inferable(beads[q], bead_ids(beads)),
            j < n,
            i <= n,
            found == (exists|q: int|
                0 <= q < i && #[trigger] beads[q].id@ == beads[j as int].id@ && inferable(beads[q], bead_ids(beads))),
        decreases n - i,
    {
        proof {
            lemma_ids_index(ids@, beads);
        }
        if inf[i] && str_eq(ids[i].as_str(), ids[j].as_str()) {
            found = true;
        }
        i += 1;
        assert(found == (exists|q: int|
            0 <= q < i && #[trigger] beads[q].id@ == beads[j as int].id@ && inferable(beads[q], bead_ids(beads)))) by {
            if found && !(inf@[i - 1] && beads[i - 1].id@ == beads[j as int].id@) {
                let q = choose|q: int|
                    0 <= q < i - 1 && #[trigger] beads[q].id@ == beads[j as int].id@ && inferable(beads[q], bead_ids(beads));
            }
        }
    }
    (first, found)
}

/// Post-processes beads: resolves dependencies, infers parent-child from
/// ID patterns, and sets children on parent beads.
pub fn post_process_beads(beads: Vec<Bead>) -> (r: Vec<Bead>)
    ensures
        post_processed(beads@, r@),
{
    let ghost orig = beads@;
    let ids = collect_ids(&beads);
    let (stage, cands, inf) = collect_inference(&beads, &ids);
    let pairs = link_pairs(&beads);
    let n = beads.len();
    let mut out: Vec<Bead> = Vec::new();
    let mut j: usize = 0;
    for b in it: beads.into_iter()
        invariant
            it.seq() == orig,
            n == orig.len(),
            j == it.index(),
            j <= n,
            out@.len() == j,
            str_views(ids@) == bead_ids(orig),
            stage@.len() == n,
            cands@.len() == n,
            inf@.len() == n,
            forall|i: int| 0 <= i < n ==> opt_view(#[trigger] stage@[i]) == stage_parent(orig[i]),
            forall|i: int| 0 <= i < n ==> opt_view(#[trigger] cands@[i]) == parent_candidate(orig[i].id@),
            forall|i: int| 0 <= i < n ==> #[trigger] inf@[i] == inferable(orig[i], bead_ids(orig)),
            forall|p: Seq<char>, x: Seq<char>| pair_in(pairs@, p, x) <==> linked_child(orig, p, x),
            forall|q: int|
                0 <= q < j ==> {
                    &&& same_content(#[trigger] out@[q], orig[q])
                    &&& out@[q].dependencies is None
                    &&& opt_view(out@[q].parent_id) == final_parent(orig, q)
                    &&& opt_views(out@[q].deps) == stage_deps(orig[q])
                    &&& opt_views(out@[q].relates_to) == stage_relates(orig[q])
                    &&& if has_children(orig, orig[q].id@) {
                        &&& out@[q].children is Some
                        &&& children_ok(orig, orig[q].id@, str_views(out@[q].children.unwrap()@))
                    } else {
                        out@[q].children == orig[q].children
                    }
                },
    {
        assert(b == orig[j as int]);
        proof {
            lemma_ids_index(ids@, orig);
        }
        let sb = stage_bead(b);
        let (first, inferred_here) = id_flags(&ids, &inf, j, Ghost(orig));
        let parent = if first && inferred_here {
            clone_opt_string(&cands[j])
        } else {
            clone_opt_string(&stage[j])
        };
        let linked = sorted_children(&pairs, ids[j].as_str());
        let inferred = inferred_children_of(&ids, &cands, &inf, ids[j].as_str(), Ghost(orig));
        let Bead {
            id,
            title,
            description,
            status,
            priority,
            issue_type,
            owner,
            created_at,
            created_by,
            updated_at,
            closed_at,
            close_reason,
            comments,
            parent_id: _,
            children,
            design_doc,
            deps,
            relates_to,
            dependencies: _,
        } = sb;
        let ghost p = orig[j as int].id@;
        let ghost inf_seq = inferred_children(orig, bead_ids(orig), p);
        let has = linked.len() > 0 || inferred.len() > 0;
        proof {
            if linked@.len() > 0 {
                assert(str_views(linked@).contains(str_views(linked@)[0]));
                assert(linked_child(orig, p, str_views(linked@)[0]));
            }
            if exists|x: Seq<char>| linked_child(orig, p, x) {
                let x = choose|x: Seq<char>| linked_child(orig, p, x);
                assert(str_views(linked@).contains(x));
            }
            assert(has == has_children(orig, p));
        }
        let new_children = if has {
            let mut all_children = linked;
            let mut more = inferred;
            let ghost lv = str_views(all_children@);
            all_children.append(&mut more);
            proof {
                let c = str_views(all_children@);
                assert(c =~= lv + inf_seq);
                assert(c.skip(lv.len() as int) =~= inf_seq);
                assert(c.take(lv.len() as int) =~= lv);
            }
            Some(all_children)
        } else {
            children
        };
        let nb = Bead {
            id,
            title,
            description,
            status,
            priority,
            issue_type,
            owner,
            created_at,
            created_by,
            updated_at,
            closed_at,
            close_reason,
            comments,
            parent_id: parent,
            children: new_children,
            design_doc,
            deps,
            relates_to,
            dependencies: None,
        };
        out.push(nb);
        j += 1;
    }
    out
}

} // verus!
