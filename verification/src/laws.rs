//! Laws of the table, proved for every table, route and request.

use vstd::prelude::*;
use crate::leaf::{LeafView, RouteDefView, merged_leaf};
use crate::path::norm_path;
use crate::table::{
    NodeView, TableView, ResolveOutcome, SegPat, nodes_wf, node_wf, child_idx, child_get,
    exact_get, find_at, leaf_at, route_pattern, goes_exact, conflicts, apply_trie, apply_route,
    walk_from, resolve_model, leaf_outcome, empty_node, strip_mount, lemma_child_idx,
    lemma_wf_set_leaf, lemma_wf_link_lit, lemma_wf_link_ph, pick_handler,
};

verus! {

/// Two resolutions that select the same way: the same handler with the
/// same declared parameters and captures, or the same error; only the
/// rewritten request path may differ.
pub open spec fn same_selection(a: ResolveOutcome, b: ResolveOutcome) -> bool {
    match (a, b) {
        (
            ResolveOutcome::Found { handler: h1, params: p1, captured: c1, path: _ },
            ResolveOutcome::Found { handler: h2, params: p2, captured: c2, path: _ },
        ) => h1 == h2 && p1 == p2 && c1 == c2,
        (ResolveOutcome::NoRoute { .. }, ResolveOutcome::NoRoute { .. }) => true,
        (ResolveOutcome::WrongMethod { .. }, ResolveOutcome::WrongMethod { .. }) => true,
        _ => false,
    }
}

/// A path that hits the exact-match table resolves from that table
/// alone: the outcome is the exact leaf's, with nothing captured, and
/// any two tables with the same exact entries agree on it whatever
/// their tries hold.
pub proof fn lemma_exact_resolution(
    t1: TableView,
    t2: TableView,
    p: Seq<char>,
    scope: Seq<char>,
    method: Seq<char>,
    l: LeafView,
)
    requires
        t1.exact == t2.exact,
        exact_get(t1.exact, norm_path(p)) == Some(l),
    ensures
        resolve_model(t1, p, scope, method) == leaf_outcome(l, Seq::empty(), p, scope, method),
        resolve_model(t1, p, scope, method) == resolve_model(t2, p, scope, method),
{
}

/// During a walk, a literal child that matches the segment is taken,
/// whether or not a placeholder child exists.
pub proof fn lemma_literal_over_placeholder(
    nodes: Seq<NodeView>,
    cur: int,
    segs: Seq<Seq<char>>,
    k: int,
    caps: Seq<Seq<char>>,
    path: Seq<char>,
    c: usize,
)
    requires
        0 <= k < segs.len(),
        child_get(nodes[cur].children, segs[k]) == Some(c),
    ensures
        walk_from(nodes, cur, segs, k, caps, path) == walk_from(
            nodes,
            c as int,
            segs,
            k + 1,
            caps,
            path,
        ),
{
}

/// The walk's destination and captures do not depend on the request
/// path it rewrites.
pub proof fn lemma_walk_ignores_path(
    nodes: Seq<NodeView>,
    cur: int,
    segs: Seq<Seq<char>>,
    k: int,
    caps: Seq<Seq<char>>,
    p1: Seq<char>,
    p2: Seq<char>,
)
    requires
        0 <= k <= segs.len(),
    ensures
        walk_from(nodes, cur, segs, k, caps, p1).dest == walk_from(
            nodes,
            cur,
            segs,
            k,
            caps,
            p2,
        ).dest,
        walk_from(nodes, cur, segs, k, caps, p1).captured == walk_from(
            nodes,
            cur,
            segs,
            k,
            caps,
            p2,
        ).captured,
    decreases segs.len() - k,
{
    if k < segs.len() {
        let s = segs[k];
        match child_get(nodes[cur].children, s) {
            Some(c) => {
                lemma_walk_ignores_path(nodes, c as int, segs, k + 1, caps, p1, p2);
            },
            None => {
                match nodes[cur].placeholder {
                    Some(c) => {
                        lemma_walk_ignores_path(nodes, c as int, segs, k + 1, caps.push(s), p1, p2);
                    },
                    None => {
                        let stat = match nodes[cur].leaf {
                            Some(l) => l.static_prefix,
                            None => None,
                        };
                        match stat {
                            Some(sp) => {
                                if sp == "/"@ {
                                    lemma_walk_ignores_path(nodes, cur, segs, k + 1, caps, p1, p2);
                                } else {
                                    lemma_walk_ignores_path(
                                        nodes,
                                        cur,
                                        segs,
                                        k + 1,
                                        caps,
                                        strip_mount(p1, sp),
                                        strip_mount(p2, sp),
                                    );
                                }
                            },
                            None => {},
                        }
                    },
                }
            },
        }
    }
}

/// The empty request path and the bare root both normalize to the root
/// path.
pub proof fn lemma_root_normalization()
    ensures
        norm_path(Seq::<char>::empty()) == seq!['/'],
        norm_path(seq!['/']) == seq!['/'],
{
    assert(seq!['/'].take(0) =~= Seq::<char>::empty());
}

/// A path that does not already end in `/` resolves the same with one
/// trailing `/` added: the same leaf and handler are selected, with the
/// same captures.
pub proof fn lemma_trailing_slash(
    t: TableView,
    p: Seq<char>,
    scope: Seq<char>,
    method: Seq<char>,
)
    requires
        p.len() > 0,
        p[p.len() - 1] != '/',
    ensures
        norm_path(p.push('/')) == norm_path(p),
        same_selection(
            resolve_model(t, p.push('/'), scope, method),
            resolve_model(t, p, scope, method),
        ),
{
    let q = p.push('/');
    assert(q.take(q.len() - 1) =~= p);
    assert(norm_path(q) == norm_path(p));
    let norm = norm_path(p);
    match exact_get(t.exact, norm) {
        Some(l) => {},
        None => {
            let segs = crate::path::split_segments(norm);
            lemma_walk_ignores_path(t.nodes, 0, segs, 0, Seq::empty(), q, p);
        },
    }
}

pub proof fn lemma_child_get_push(s: Seq<(Seq<char>, usize)>, seg: Seq<char>, f: usize, i: int)
    requires
        0 <= i <= s.len(),
        child_idx(s, seg, i) == -1,
    ensures
        child_idx(s.push((seg, f)), seg, i) == s.len(),
    decreases s.len() - i,
{
    let s2 = s.push((seg, f));
    if i < s.len() {
        assert(s2[i] == s[i]);
        lemma_child_get_push(s, seg, f, i + 1);
    } else {
        assert(s2[i].0 == seg);
    }
}

/// Registering along a pattern changes no node that sits before the walk's
/// starting node in the arena, and keeps the arena well formed.
pub proof fn lemma_apply_trie_frame(
    nodes: Seq<NodeView>,
    cur: int,
    pat: Seq<SegPat>,
    k: int,
    r: RouteDefView,
)
    requires
        nodes_wf(nodes),
        0 <= cur < nodes.len(),
        0 <= k <= pat.len(),
        nodes.len() + (pat.len() - k) <= usize::MAX,
    ensures
        ({
            let nodes2 = apply_trie(nodes, cur, pat, k, r);
            &&& nodes2.len() >= nodes.len()
            &&& nodes_wf(nodes2)
            &&& forall|j: int| 0 <= j < cur ==> nodes2[j] == nodes[j]
        }),
    decreases pat.len() - k,
{
    if k >= pat.len() {
        lemma_wf_set_leaf(nodes, cur, merged_leaf(nodes[cur].leaf, r));
    } else {
        match pat[k] {
            SegPat::Lit(s) => {
                match child_get(nodes[cur].children, s) {
                    Some(c) => {
                        lemma_child_idx(nodes[cur].children, s, 0);
                        assert(node_wf(nodes, cur));
                        assert(cur < c < nodes.len());
                        lemma_apply_trie_frame(nodes, c as int, pat, k + 1, r);
                    },
                    None => {
                        let f = nodes.len() as usize;
                        let parent = NodeView {
                            children: nodes[cur].children.push((s, f)),
                            placeholder: nodes[cur].placeholder,
                            leaf: nodes[cur].leaf,
                        };
                        let mid = nodes.update(cur, parent).push(empty_node());
                        lemma_wf_link_lit(nodes, cur, s);
                        lemma_apply_trie_frame(mid, f as int, pat, k + 1, r);
                    },
                }
            },
            SegPat::Ph => {
                match nodes[cur].placeholder {
                    Some(c) => {
                        assert(node_wf(nodes, cur));
                        lemma_apply_trie_frame(nodes, c as int, pat, k + 1, r);
                    },
                    None => {
                        let f = nodes.len() as usize;
                        let parent = NodeView {
                            children: nodes[cur].children,
                            placeholder: Some(f),
                            leaf: nodes[cur].leaf,
                        };
                        let mid = nodes.update(cur, parent).push(empty_node());
                        lemma_wf_link_ph(nodes, cur);
                        lemma_apply_trie_frame(mid, f as int, pat, k + 1, r);
                    },
                }
            },
        }
    }
}

/// After registering along a pattern, that pattern leads to a node whose
/// leaf is the route merged onto whatever leaf the pattern led to before.
pub proof fn lemma_apply_trie_leaf_at(
    nodes: Seq<NodeView>,
    cur: int,
    pat: Seq<SegPat>,
    k: int,
    r: RouteDefView,
) -> (d: int)
    requires
        nodes_wf(nodes),
        0 <= cur < nodes.len(),
        0 <= k <= pat.len(),
        nodes.len() + (pat.len() - k) <= usize::MAX,
    ensures
        ({
            let nodes2 = apply_trie(nodes, cur, pat, k, r);
            let l0 = match find_at(nodes, cur, pat, k) {
                Some(i) => if 0 <= i < nodes.len() {
                    nodes[i].leaf
                } else {
                    None
                },
                None => None,
            };
            &&& find_at(nodes2, cur, pat, k) == Some(d)
            &&& 0 <= d < nodes2.len()
            &&& nodes2[d].leaf == Some(merged_leaf(l0, r))
        }),
    decreases pat.len() - k,
{
    let nodes2 = apply_trie(nodes, cur, pat, k, r);
    if k >= pat.len() {
        cur
    } else {
        match pat[k] {
            SegPat::Lit(s) => {
                match child_get(nodes[cur].children, s) {
                    Some(c) => {
                        lemma_child_idx(nodes[cur].children, s, 0);
                        assert(node_wf(nodes, cur));
                        assert(cur < c < nodes.len());
                        lemma_apply_trie_frame(nodes, c as int, pat, k + 1, r);
                        let d = lemma_apply_trie_leaf_at(nodes, c as int, pat, k + 1, r);
                        assert(nodes2[cur] == nodes[cur]);
                        d
                    },
                    None => {
                        let f = nodes.len() as usize;
                        let parent = NodeView {
                            children: nodes[cur].children.push((s, f)),
                            placeholder: nodes[cur].placeholder,
                            leaf: nodes[cur].leaf,
                        };
                        let mid = nodes.update(cur, parent).push(empty_node());
                        lemma_wf_link_lit(nodes, cur, s);
                        lemma_apply_trie_frame(mid, f as int, pat, k + 1, r);
                        let d = lemma_apply_trie_leaf_at(mid, f as int, pat, k + 1, r);
                        assert(mid[f as int] == empty_node());
                        if k + 1 < pat.len() {
                            match pat[k + 1] {
                                SegPat::Lit(s1) => {
                                    assert(child_idx(empty_node().children, s1, 0) == -1);
                                    assert(find_at(mid, f as int, pat, k + 1) is None);
                                },
                                SegPat::Ph => {
                                    assert(find_at(mid, f as int, pat, k + 1) is None);
                                },
                            }
                        } else {
                            assert(find_at(mid, f as int, pat, k + 1) == Some(f as int));
                        }
                        lemma_child_get_push(nodes[cur].children, s, f, 0);
                        assert(nodes2[cur] == mid[cur]);
                        assert(child_get(nodes2[cur].children, s) == Some(f));
                        assert(find_at(nodes2, cur, pat, k) == find_at(nodes2, f as int, pat, k + 1));
                        d
                    },
                }
            },
            SegPat::Ph => {
                match nodes[cur].placeholder {
                    Some(c) => {
                        assert(node_wf(nodes, cur));
                        assert(cur < c < nodes.len());
                        lemma_apply_trie_frame(nodes, c as int, pat, k + 1, r);
                        let d = lemma_apply_trie_leaf_at(nodes, c as int, pat, k + 1, r);
                        assert(nodes2[cur] == nodes[cur]);
                        d
                    },
                    None => {
                        let f = nodes.len() as usize;
                        let parent = NodeView {
                            children: nodes[cur].children,
                            placeholder: Some(f),
                            leaf: nodes[cur].leaf,
                        };
                        let mid = nodes.update(cur, parent).push(empty_node());
                        lemma_wf_link_ph(nodes, cur);
                        lemma_apply_trie_frame(mid, f as int, pat, k + 1, r);
                        let d = lemma_apply_trie_leaf_at(mid, f as int, pat, k + 1, r);
                        assert(mid[f as int] == empty_node());
                        if k + 1 < pat.len() {
                            match pat[k + 1] {
                                SegPat::Lit(s1) => {
                                    assert(child_idx(empty_node().children, s1, 0) == -1);
                                    assert(find_at(mid, f as int, pat, k + 1) is None);
                                },
                                SegPat::Ph => {
                                    assert(find_at(mid, f as int, pat, k + 1) is None);
                                },
                            }
                        } else {
                            assert(find_at(mid, f as int, pat, k + 1) == Some(f as int));
                        }
                        assert(nodes2[cur] == mid[cur]);
                        assert(find_at(nodes2, cur, pat, k) == find_at(nodes2, f as int, pat, k + 1));
                        d
                    },
                }
            },
        }
    }
}

/// Registering onto a leaf never changes its declared parameters; a new
/// leaf gets the route's own.
pub proof fn lemma_merged_leaf_params(l0: Option<LeafView>, r: RouteDefView)
    ensures
        merged_leaf(l0, r).params == match l0 {
            Some(l) => l.params,
            None => r.params,
        },
{
}

/// Registering a second trie route of the same path shape but with
/// different declared parameters is a conflict, and the table still
/// holds the first route's leaf (with the first route's parameters)
/// under that shape.
pub proof fn lemma_conflicting_parameters(t: TableView, r1: RouteDefView, r2: RouteDefView)
    requires
        nodes_wf(t.nodes),
        t.nodes.len() + route_pattern(r1).len() <= usize::MAX,
        !goes_exact(r1),
        !goes_exact(r2),
        route_pattern(r2) == route_pattern(r1),
        r2.params != r1.params,
        !conflicts(t, r1),
    ensures
        conflicts(apply_route(t, r1), r2),
        leaf_at(apply_route(t, r1).nodes, route_pattern(r1)) == Some(
            merged_leaf(leaf_at(t.nodes, route_pattern(r1)), r1),
        ),
        merged_leaf(leaf_at(t.nodes, route_pattern(r1)), r1).params == r1.params,
{
    let pat = route_pattern(r1);
    let nodes2 = apply_trie(t.nodes, 0, pat, 0, r1);
    let d = lemma_apply_trie_leaf_at(t.nodes, 0, pat, 0, r1);
    lemma_merged_leaf_params(leaf_at(t.nodes, pat), r1);
    match leaf_at(t.nodes, pat) {
        Some(l) => {
            assert(!conflicts(t, r1));
            assert(l.params == r1.params);
        },
        None => {},
    }
}

/// What an HTTP request gets from a leaf that is no catch-all: its
/// method's handler when one is stored, and a method-not-allowed error
/// otherwise; non-HTTP scopes never see that error.
pub proof fn lemma_method_dispatch(l: LeafView, scope: Seq<char>, method: Seq<char>)
    ensures
        (pick_handler(l, scope, method) matches Err(e)
            && e == crate::table::ResolveError::MethodNotAllowed) ==> scope == "http"@
            && crate::handler::handler_get(l.handlers, crate::handler::kind_of_method(method))
            is None,
        !l.is_catch_all && scope == "http"@ && crate::handler::handler_get(
            l.handlers,
            crate::handler::kind_of_method(method),
        ) is None ==> pick_handler(l, scope, method) == Err::<u64, crate::table::ResolveError>(
            crate::table::ResolveError::MethodNotAllowed,
        ),
{
}

} // verus!
verus! {

pub proof fn lemma_exact_idx_push(
    s: Seq<crate::table::ExactEntryView>,
    p: Seq<char>,
    e: crate::table::ExactEntryView,
    i: int,
)
    requires
        0 <= i <= s.len(),
        crate::table::exact_idx(s, p, i) == -1,
        e.path == p,
    ensures
        crate::table::exact_idx(s.push(e), p, i) == s.len(),
    decreases s.len() - i,
{
    let s2 = s.push(e);
    if i < s.len() {
        assert(s2[i] == s[i]);
        lemma_exact_idx_push(s, p, e, i + 1);
    } else {
        assert(s2[i].path == p);
    }
}

pub proof fn lemma_exact_idx_update(
    s: Seq<crate::table::ExactEntryView>,
    p: Seq<char>,
    e: crate::table::ExactEntryView,
    i: int,
    k: int,
)
    requires
        0 <= k <= i < s.len(),
        crate::table::exact_idx(s, p, k) == i,
        e.path == p,
    ensures
        crate::table::exact_idx(s.update(i, e), p, k) == i,
    decreases s.len() - k,
{
    let s2 = s.update(i, e);
    if k < i {
        assert(s2[k] == s[k]);
        assert(s[k].path != p);
        lemma_exact_idx_update(s, p, e, i, k + 1);
    } else {
        assert(s2[k].path == p);
    }
}

/// Storing a leaf in the exact-match table makes it the one that path
/// looks up.
pub proof fn lemma_exact_get_set(
    s: Seq<crate::table::ExactEntryView>,
    p: Seq<char>,
    l: LeafView,
)
    ensures
        exact_get(crate::table::exact_set(s, p, l), p) == Some(l),
{
    let e = crate::table::ExactEntryView { path: p, leaf: l };
    let i = crate::table::exact_idx(s, p, 0);
    crate::table::lemma_exact_idx(s, p, 0);
    if i == -1 {
        lemma_exact_idx_push(s, p, e, 0);
    } else {
        lemma_exact_idx_update(s, p, e, i, 0);
    }
}

/// Registering a parameterless, unmounted route makes its (already
/// normalized) path resolve to exactly that route's leaf, whatever the
/// trie holds before or after.
pub proof fn lemma_registered_exact_resolves(
    t: TableView,
    r: RouteDefView,
    scope: Seq<char>,
    method: Seq<char>,
)
    requires
        goes_exact(r),
        norm_path(r.path) == r.path,
    ensures
        resolve_model(apply_route(t, r), r.path, scope, method) == leaf_outcome(
            merged_leaf(exact_get(t.exact, r.path), r),
            Seq::empty(),
            r.path,
            scope,
            method,
        ),
{
    lemma_exact_get_set(t.exact, r.path, merged_leaf(exact_get(t.exact, r.path), r));
}

} // verus!
verus! {

/// The bare root path always reaches the trie root: when the root node
/// carries a leaf (and no exact entry shadows it), resolving `/` is that
/// leaf's outcome.
pub proof fn lemma_resolve_root(t: TableView, l: LeafView, scope: Seq<char>, method: Seq<char>)
    requires
        t.nodes.len() >= 1,
        exact_get(t.exact, seq!['/']) is None,
        t.nodes[0].leaf == Some(l),
    ensures
        resolve_model(t, seq!['/'], scope, method) == leaf_outcome(
            l,
            Seq::empty(),
            seq!['/'],
            scope,
            method,
        ),
{
    lemma_root_normalization();
    let root = seq!['/'];
    assert(crate::path::split_from(root, 1) =~= Seq::<Seq<char>>::empty());
    assert(crate::path::split_segments(root) =~= Seq::<Seq<char>>::empty());
    assert(walk_from(t.nodes, 0, crate::path::split_segments(root), 0, Seq::empty(), root)
        == crate::table::WalkEnd { dest: Some(0), captured: Seq::empty(), path: root });
}

} // verus!
