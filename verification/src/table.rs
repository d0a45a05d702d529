//! The route table: an exact-match list for parameterless routes and an
//! index-arena trie for everything else. Registration walks (and grows)
//! the trie; resolution walks it read-only. Keeping the nodes in one
//! flat arena makes construction, traversal and teardown iterative, so
//! the depth of the registered paths never drives call-stack growth.

use vstd::prelude::*;
use vstd::string::*;
use crate::handler::{HandlerKind, KindView, kind_of_method, handler_get, handlers_get};
use crate::leaf::{
    Leaf, LeafView, RouteDef, RouteDefView, RouteKind, RouteKindView, fresh_leaf, merged_leaf,
    clone_strings, params_eq,
};
use crate::path::{
    str_eq, norm_path, split_segments, is_placeholder_seg, normalize_path, split_path,
    seg_is_placeholder,
};

verus! {

/// One trie node: its literal children (segment text to node index), at
/// most one placeholder child, and the leaf of the path that ends here,
/// if one does. Children are arena indices into `RouteTable::nodes`.
pub struct TrieNode {
    pub literal_children: Vec<(String, usize)>,
    pub placeholder_child: Option<usize>,
    pub leaf: Option<Leaf>,
}

/// The mathematical image of a `TrieNode`.
pub struct NodeView {
    pub children: Seq<(Seq<char>, usize)>,
    pub placeholder: Option<usize>,
    pub leaf: Option<LeafView>,
}

impl View for TrieNode {
    type V = NodeView;

    open spec fn view(&self) -> NodeView {
        NodeView {
            children: self.literal_children.deep_view(),
            placeholder: self.placeholder_child,
            leaf: self.leaf.deep_view(),
        }
    }
}

impl DeepView for TrieNode {
    type V = NodeView;

    open spec fn deep_view(&self) -> NodeView {
        self@
    }
}

impl DeepView for Leaf {
    type V = LeafView;

    open spec fn deep_view(&self) -> LeafView {
        self@
    }
}

/// One entry of the exact-match table.
pub struct ExactEntry {
    pub path: String,
    pub leaf: Leaf,
}

/// The mathematical image of an `ExactEntry`.
pub struct ExactEntryView {
    pub path: Seq<char>,
    pub leaf: LeafView,
}

impl View for ExactEntry {
    type V = ExactEntryView;

    open spec fn view(&self) -> ExactEntryView {
        ExactEntryView { path: self.path@, leaf: self.leaf@ }
    }
}

impl DeepView for ExactEntry {
    type V = ExactEntryView;

    open spec fn deep_view(&self) -> ExactEntryView {
        self@
    }
}

/// The route table. `nodes[0]` is the trie root and always exists.
pub struct RouteTable {
    pub exact: Vec<ExactEntry>,
    pub nodes: Vec<TrieNode>,
}

/// The mathematical image of a `RouteTable`.
pub struct TableView {
    pub exact: Seq<ExactEntryView>,
    pub nodes: Seq<NodeView>,
}

impl View for RouteTable {
    type V = TableView;

    open spec fn view(&self) -> TableView {
        TableView { exact: self.exact.deep_view(), nodes: self.nodes.deep_view() }
    }
}

/// A registration error.
#[derive(Clone, Copy, PartialEq, Eq, Structural, Debug)]
pub enum RegisterError {
    /// The route's declared parameters differ from the ones the same
    /// path shape was first registered with.
    ConflictingParameters,
    /// The route's classification is not a recognized kind.
    UnrecognizedRouteKind,
}

/// A resolution error.
#[derive(Clone, Copy, PartialEq, Eq, Structural, Debug)]
pub enum ResolveError {
    /// No registered route matches the request path, or the matched leaf
    /// has no handler of the required kind.
    NotFound,
    /// The matched HTTP leaf has handlers, but none for this method.
    MethodNotAllowed,
}

/// A successful resolution: the selected handler reference, the leaf's
/// declared parameter names, and the placeholder values captured on the
/// walk, in path order.
pub struct Resolution {
    pub handler: u64,
    pub param_names: Vec<String>,
    pub captured: Vec<String>,
}

/// One step of a registered path shape: a literal segment or a
/// placeholder.
pub enum SegPat {
    Lit(Seq<char>),
    Ph,
}

// ---------------------------------------------------------------------
// Well-formedness
// ---------------------------------------------------------------------

/// Every child index of node `i` points past `i` and into the arena.
/// Children sitting strictly after their parent is how registration
/// appends nodes, and it rules out cycles among the nodes.
pub open spec fn node_wf(nodes: Seq<NodeView>, i: int) -> bool {
    &&& forall|j: int|
        0 <= j < nodes[i].children.len() ==> i < #[trigger] nodes[i].children[j].1 < nodes.len()
    &&& match nodes[i].placeholder {
        Some(c) => i < c < nodes.len(),
        None => true,
    }
}

/// The arena is non-empty (the root lives at index zero) and every node
/// is well formed.
pub open spec fn nodes_wf(nodes: Seq<NodeView>) -> bool {
    &&& nodes.len() >= 1
    &&& forall|i: int| 0 <= i < nodes.len() ==> #[trigger] node_wf(nodes, i)
}

// ---------------------------------------------------------------------
// Association lookups
// ---------------------------------------------------------------------

/// Position of the first child entry for segment `seg`, looking from
/// position `i` on; `-1` if none follows.
pub open spec fn child_idx(s: Seq<(Seq<char>, usize)>, seg: Seq<char>, i: int) -> int
    decreases s.len() - i when 0 <= i <= s.len()
{
    if i >= s.len() {
        -1
    } else if s[i].0 == seg {
        i
    } else {
        child_idx(s, seg, i + 1)
    }
}

/// The node index stored for literal segment `seg`, if any.
pub open spec fn child_get(s: Seq<(Seq<char>, usize)>, seg: Seq<char>) -> Option<usize> {
    let i = child_idx(s, seg, 0);
    if i == -1 {
        None
    } else {
        Some(s[i].1)
    }
}

/// Position of the first exact-table entry for `path`, looking from
/// position `i` on; `-1` if none follows.
pub open spec fn exact_idx(s: Seq<ExactEntryView>, path: Seq<char>, i: int) -> int
    decreases s.len() - i when 0 <= i <= s.len()
{
    if i >= s.len() {
        -1
    } else if s[i].path == path {
        i
    } else {
        exact_idx(s, path, i + 1)
    }
}

/// The leaf the exact-match table stores for `path`, if any.
pub open spec fn exact_get(s: Seq<ExactEntryView>, path: Seq<char>) -> Option<LeafView> {
    let i = exact_idx(s, path, 0);
    if i == -1 {
        None
    } else {
        Some(s[i].leaf)
    }
}

/// The exact-match table after storing `l` under `path`.
pub open spec fn exact_set(s: Seq<ExactEntryView>, path: Seq<char>, l: LeafView) -> Seq<
    ExactEntryView,
> {
    let i = exact_idx(s, path, 0);
    if i == -1 {
        s.push(ExactEntryView { path, leaf: l })
    } else {
        s.update(i, ExactEntryView { path, leaf: l })
    }
}

pub proof fn lemma_child_idx(s: Seq<(Seq<char>, usize)>, seg: Seq<char>, i: int)
    requires
        0 <= i <= s.len(),
    ensures
        child_idx(s, seg, i) == -1 ==> forall|j: int| i <= j < s.len() ==> s[j].0 != seg,
        child_idx(s, seg, i) != -1 ==> i <= child_idx(s, seg, i) < s.len()
            && s[child_idx(s, seg, i)].0 == seg,
    decreases s.len() - i,
{
    if i < s.len() && s[i].0 != seg {
        lemma_child_idx(s, seg, i + 1);
    }
}

// ---------------------------------------------------------------------
// The path shape of a route
// ---------------------------------------------------------------------

/// The shape of a sequence of segments under a declared parameter set:
/// each segment that the placeholder rule recognizes becomes `Ph`, every
/// other one stays literal.
pub open spec fn pattern_from(segs: Seq<Seq<char>>, params: Seq<Seq<char>>) -> Seq<SegPat> {
    Seq::new(
        segs.len(),
        |i: int|
            if is_placeholder_seg(segs[i], params) {
                SegPat::Ph
            } else {
                SegPat::Lit(segs[i])
            },
    )
}

/// The path shape a route registers under.
pub open spec fn route_pattern(r: RouteDefView) -> Seq<SegPat> {
    pattern_from(split_segments(r.path), r.params)
}

/// The node a path shape leads to, walking from node `cur` with the
/// shape's position `k`; `None` when a step has no matching child.
pub open spec fn find_at(nodes: Seq<NodeView>, cur: int, pat: Seq<SegPat>, k: int) -> Option<int>
    decreases pat.len() - k when 0 <= k <= pat.len()
{
    if k >= pat.len() {
        Some(cur)
    } else {
        match pat[k] {
            SegPat::Lit(s) => match child_get(nodes[cur].children, s) {
                Some(c) => find_at(nodes, c as int, pat, k + 1),
                None => None,
            },
            SegPat::Ph => match nodes[cur].placeholder {
                Some(c) => find_at(nodes, c as int, pat, k + 1),
                None => None,
            },
        }
    }
}

/// The leaf registered under a path shape, if any.
pub open spec fn leaf_at(nodes: Seq<NodeView>, pat: Seq<SegPat>) -> Option<LeafView> {
    match find_at(nodes, 0, pat, 0) {
        Some(i) => if 0 <= i < nodes.len() {
            nodes[i].leaf
        } else {
            None
        },
        None => None,
    }
}

// ---------------------------------------------------------------------
// Registration, modelled
// ---------------------------------------------------------------------

/// A route with no declared parameters and no static-mount mark lives in
/// the exact-match table; every other route lives in the trie.
pub open spec fn goes_exact(r: RouteDefView) -> bool {
    r.params.len() == 0 && !r.is_static_mount
}

/// The parameters the table already declares for this route's path
/// shape, if a leaf for that shape exists.
pub open spec fn prior_params(t: TableView, r: RouteDefView) -> Option<Seq<Seq<char>>> {
    let l = if goes_exact(r) {
        exact_get(t.exact, r.path)
    } else {
        leaf_at(t.nodes, route_pattern(r))
    };
    match l {
        Some(l) => Some(l.params),
        None => None,
    }
}

/// A registration conflicts exactly when a leaf for the same path shape
/// exists and was declared with different parameters.
pub open spec fn conflicts(t: TableView, r: RouteDefView) -> bool {
    match prior_params(t, r) {
        Some(p) => p != r.params,
        None => false,
    }
}

/// A node with no children and no leaf.
pub open spec fn empty_node() -> NodeView {
    NodeView { children: Seq::empty(), placeholder: None, leaf: None }
}

/// The arena after registering route `r` along `pat` from node `cur` at
/// shape position `k`: missing nodes are appended and linked, and the
/// route is merged onto the final node's leaf.
pub open spec fn apply_trie(
    nodes: Seq<NodeView>,
    cur: int,
    pat: Seq<SegPat>,
    k: int,
    r: RouteDefView,
) -> Seq<NodeView>
    decreases pat.len() - k when 0 <= k <= pat.len()
{
    if k >= pat.len() {
        nodes.update(
            cur,
            NodeView {
                children: nodes[cur].children,
                placeholder: nodes[cur].placeholder,
                leaf: Some(merged_leaf(nodes[cur].leaf, r)),
            },
        )
    } else {
        match pat[k] {
            SegPat::Lit(s) => match child_get(nodes[cur].children, s) {
                Some(c) => apply_trie(nodes, c as int, pat, k + 1, r),
                None => {
                    let f = nodes.len() as usize;
                    let parent = NodeView {
                        children: nodes[cur].children.push((s, f)),
                        placeholder: nodes[cur].placeholder,
                        leaf: nodes[cur].leaf,
                    };
                    apply_trie(nodes.update(cur, parent).push(empty_node()), f as int, pat, k + 1, r)
                },
            },
            SegPat::Ph => match nodes[cur].placeholder {
                Some(c) => apply_trie(nodes, c as int, pat, k + 1, r),
                None => {
                    let f = nodes.len() as usize;
                    let parent = NodeView {
                        children: nodes[cur].children,
                        placeholder: Some(f),
                        leaf: nodes[cur].leaf,
                    };
                    apply_trie(nodes.update(cur, parent).push(empty_node()), f as int, pat, k + 1, r)
                },
            },
        }
    }
}

/// The table after one route registers without error.
pub open spec fn apply_route(t: TableView, r: RouteDefView) -> TableView {
    if goes_exact(r) {
        TableView {
            exact: exact_set(t.exact, r.path, merged_leaf(exact_get(t.exact, r.path), r)),
            nodes: t.nodes,
        }
    } else {
        TableView { exact: t.exact, nodes: apply_trie(t.nodes, 0, route_pattern(r), 0, r) }
    }
}

/// The table and outcome after registering a batch of routes in order.
/// The first failing route stops the batch; routes before it stay
/// registered, the failing one leaves no trace.
pub open spec fn apply_batch(t: TableView, rs: Seq<RouteDefView>) -> (TableView, Option<
    RegisterError,
>)
    decreases rs.len(),
{
    if rs.len() == 0 {
        (t, None)
    } else if conflicts(t, rs[0]) {
        (t, Some(RegisterError::ConflictingParameters))
    } else if rs[0].kind is Unrecognized {
        (t, Some(RegisterError::UnrecognizedRouteKind))
    } else {
        apply_batch(apply_route(t, rs[0]), rs.drop_first())
    }
}

// ---------------------------------------------------------------------
// Resolution, modelled
// ---------------------------------------------------------------------

/// A request path after a static mount strips its prefix: the mount path
/// is removed from the front when it is there, otherwise the path stays.
pub open spec fn strip_mount(path: Seq<char>, pre: Seq<char>) -> Seq<char> {
    if pre.len() <= path.len() && path.take(pre.len() as int) == pre {
        path.skip(pre.len() as int)
    } else {
        path
    }
}

/// Where a request walk ends: the node reached after all segments (or
/// `None` on a dead end), the placeholder values captured in order, and
/// the request path as static mounts left it.
pub struct WalkEnd {
    pub dest: Option<int>,
    pub captured: Seq<Seq<char>>,
    pub path: Seq<char>,
}

/// The request-time walk. Each segment prefers the literal child, then
/// the placeholder child (capturing the segment), and otherwise stays on
/// a static-mount leaf, stripping the mount prefix from the request path
/// once; a node with none of these is a dead end.
pub open spec fn walk_from(
    nodes: Seq<NodeView>,
    cur: int,
    segs: Seq<Seq<char>>,
    k: int,
    captured: Seq<Seq<char>>,
    path: Seq<char>,
) -> WalkEnd
    decreases segs.len() - k when 0 <= k <= segs.len()
{
    if k >= segs.len() {
        WalkEnd { dest: Some(cur), captured, path }
    } else {
        let s = segs[k];
        match child_get(nodes[cur].children, s) {
            Some(c) => walk_from(nodes, c as int, segs, k + 1, captured, path),
            None => match nodes[cur].placeholder {
                Some(c) => walk_from(nodes, c as int, segs, k + 1, captured.push(s), path),
                None => {
                    let stat = match nodes[cur].leaf {
                        Some(l) => l.static_prefix,
                        None => None,
                    };
                    match stat {
                        Some(sp) => if sp == "/"@ {
                            walk_from(nodes, cur, segs, k + 1, captured, path)
                        } else {
                            walk_from(nodes, cur, segs, k + 1, captured, strip_mount(path, sp))
                        },
                        None => WalkEnd { dest: None, captured, path },
                    }
                },
            },
        }
    }
}

/// The handler a leaf yields: the catch-all slot for catch-all leaves,
/// the method's slot for HTTP scopes (a miss is a method-not-allowed
/// error), and the WebSocket slot otherwise.
pub open spec fn pick_handler(l: LeafView, scope: Seq<char>, method: Seq<char>) -> Result<
    u64,
    ResolveError,
> {
    if l.is_catch_all {
        match handler_get(l.handlers, KindView::CatchAll) {
            Some(h) => Ok(h),
            None => Err(ResolveError::NotFound),
        }
    } else if scope == "http"@ {
        match handler_get(l.handlers, kind_of_method(method)) {
            Some(h) => Ok(h),
            None => Err(ResolveError::MethodNotAllowed),
        }
    } else {
        match handler_get(l.handlers, KindView::WebSocket) {
            Some(h) => Ok(h),
            None => Err(ResolveError::NotFound),
        }
    }
}

/// The outcome of one resolution: a handler with the leaf's declared
/// parameters and the captured values, or an error. `path` is the
/// request path as resolution leaves it.
pub enum ResolveOutcome {
    Found { handler: u64, params: Seq<Seq<char>>, captured: Seq<Seq<char>>, path: Seq<char> },
    NoRoute { path: Seq<char> },
    WrongMethod { path: Seq<char> },
}

/// The request path an outcome leaves behind.
pub open spec fn outcome_path(o: ResolveOutcome) -> Seq<char> {
    match o {
        ResolveOutcome::Found { path, .. } => path,
        ResolveOutcome::NoRoute { path } => path,
        ResolveOutcome::WrongMethod { path } => path,
    }
}

/// A leaf's outcome once the walk has fixed the captured values and the
/// remaining request path.
pub open spec fn leaf_outcome(
    l: LeafView,
    captured: Seq<Seq<char>>,
    path: Seq<char>,
    scope: Seq<char>,
    method: Seq<char>,
) -> ResolveOutcome {
    match pick_handler(l, scope, method) {
        Ok(h) => ResolveOutcome::Found { handler: h, params: l.params, captured, path },
        Err(ResolveError::NotFound) => ResolveOutcome::NoRoute { path },
        Err(ResolveError::MethodNotAllowed) => ResolveOutcome::WrongMethod { path },
    }
}

/// What resolving a request against a table yields: the normalized path
/// is looked up exactly first (no capture, no rewrite); otherwise the
/// trie walk decides.
pub open spec fn resolve_model(
    t: TableView,
    path: Seq<char>,
    scope: Seq<char>,
    method: Seq<char>,
) -> ResolveOutcome {
    let norm = norm_path(path);
    match exact_get(t.exact, norm) {
        Some(l) => leaf_outcome(l, Seq::empty(), path, scope, method),
        None => {
            let w = walk_from(t.nodes, 0, split_segments(norm), 0, Seq::empty(), path);
            match w.dest {
                None => ResolveOutcome::NoRoute { path: w.path },
                Some(i) => {
                    let lf = if 0 <= i < t.nodes.len() {
                        t.nodes[i].leaf
                    } else {
                        None
                    };
                    match lf {
                        None => ResolveOutcome::NoRoute { path: w.path },
                        Some(l) => leaf_outcome(l, w.captured, w.path, scope, method),
                    }
                },
            }
        },
    }
}

// ---------------------------------------------------------------------
// Executable helpers
// ---------------------------------------------------------------------

/// Looks up the literal child stored for segment `seg`.
fn children_find(children: &Vec<(String, usize)>, seg: &str) -> (r: Option<usize>)
    ensures
        r == child_get(children.deep_view(), seg@),
{
    let ghost s = children.deep_view();
    let mut i: usize = 0;
    while i < children.len()
        invariant
            s == children.deep_view(),
            i <= children.len(),
            s.len() == children.len(),
            child_idx(s, seg@, 0) == child_idx(s, seg@, i as int),
        decreases children.len() - i,
    {
        if str_eq(children[i].0.as_str(), seg) {
            proof {
                assert(s[i as int].0 == seg@);
                assert(child_idx(s, seg@, i as int) == i as int);
            }
            return Some(children[i].1);
        }
        proof {
            assert(s[i as int].0 != seg@);
        }
        i = i + 1;
    }
    None
}

/// Position of the exact-table entry for `path`, if one exists.
fn exact_find(entries: &Vec<ExactEntry>, path: &str) -> (r: Option<usize>)
    ensures
        match r {
            Some(i) => exact_idx(entries.deep_view(), path@, 0) == i as int && i < entries.len(),
            None => exact_idx(entries.deep_view(), path@, 0) == -1,
        },
{
    let ghost s = entries.deep_view();
    let mut i: usize = 0;
    while i < entries.len()
        invariant
            s == entries.deep_view(),
            i <= entries.len(),
            s.len() == entries.len(),
            exact_idx(s, path@, 0) == exact_idx(s, path@, i as int),
        decreases entries.len() - i,
    {
        if str_eq(entries[i].path.as_str(), path) {
            proof {
                assert(s[i as int].path == path@);
                assert(exact_idx(s, path@, i as int) == i as int);
            }
            return Some(i);
        }
        proof {
            assert(s[i as int].path != path@);
        }
        i = i + 1;
    }
    None
}

/// Removes `pre` from the front of `path` when it is there.
fn strip_prefix_once(path: &mut String, pre: &str)
    ensures
        final(path)@ == strip_mount(old(path)@, pre@),
{
    let plen = pre.unicode_len();
    let n = path.as_str().unicode_len();
    if plen <= n {
        let head = path.as_str().substring_char(0, plen);
        if str_eq(head, pre) {
            let rest = String::from_str(path.as_str().substring_char(plen, n));
            *path = rest;
            return;
        }
    }
}

/// Selects this leaf's handler for a scope kind and method.
fn leaf_pick(leaf: &Leaf, scope_kind: &str, method: &str) -> (r: Result<u64, ResolveError>)
    ensures
        r == pick_handler(leaf@, scope_kind@, method@),
{
    if leaf.is_catch_all {
        match handlers_get(&leaf.handlers, &HandlerKind::CatchAll) {
            Some(h) => Ok(h),
            None => Err(ResolveError::NotFound),
        }
    } else if str_eq(scope_kind, "http") {
        let k = HandlerKind::from_http_method(method);
        match handlers_get(&leaf.handlers, &k) {
            Some(h) => Ok(h),
            None => Err(ResolveError::MethodNotAllowed),
        }
    } else {
        match handlers_get(&leaf.handlers, &HandlerKind::WebSocket) {
            Some(h) => Ok(h),
            None => Err(ResolveError::NotFound),
        }
    }
}

impl RouteTable {
    /// The arena is well formed; every operation requires and preserves
    /// this.
    pub open spec fn wf(&self) -> bool {
        nodes_wf(self@.nodes)
    }

    /// An empty table: no exact entries, a bare trie root.
    pub fn new() -> (t: RouteTable)
        ensures
            t.wf(),
            t@.exact.len() == 0,
            t@.nodes.len() == 1,
            t@.nodes[0] == empty_node(),
    {
        let mut nodes: Vec<TrieNode> = Vec::new();
        nodes.push(
            TrieNode { literal_children: Vec::new(), placeholder_child: None, leaf: None },
        );
        let t = RouteTable { exact: Vec::new(), nodes };
        proof {
            assert(t@.nodes[0].children =~= empty_node().children);
            assert(t@.nodes[0] == empty_node());
        }
        t
    }

    /// Empties the table: every exact entry and every trie node is
    /// dropped, and a bare root remains. Both the drop and the rebuild
    /// are flat over the arena, so a trie of any depth tears down
    /// without recursion.
    pub fn clear(&mut self)
        ensures
            final(self).wf(),
            final(self)@.exact.len() == 0,
            final(self)@.nodes.len() == 1,
            final(self)@.nodes[0] == empty_node(),
    {
        self.exact.clear();
        self.nodes.clear();
        self.nodes.push(
            TrieNode { literal_children: Vec::new(), placeholder_child: None, leaf: None },
        );
        proof {
            assert(self@.nodes[0].children =~= empty_node().children);
            assert(self@.nodes[0] == empty_node());
        }
    }
}

} // verus!

verus! {

// ---------------------------------------------------------------------
// Well-formedness is kept through every arena mutation
// ---------------------------------------------------------------------

pub proof fn lemma_wf_link_lit(pre: Seq<NodeView>, cur: int, s: Seq<char>)
    requires
        nodes_wf(pre),
        pre.len() <= usize::MAX,
        0 <= cur < pre.len(),
    ensures
        ({
            let f = pre.len() as usize;
            let parent = NodeView {
                children: pre[cur].children.push((s, f)),
                placeholder: pre[cur].placeholder,
                leaf: pre[cur].leaf,
            };
            nodes_wf(pre.update(cur, parent).push(empty_node()))
        }),
{
    let f = pre.len() as usize;
    let parent = NodeView {
        children: pre[cur].children.push((s, f)),
        placeholder: pre[cur].placeholder,
        leaf: pre[cur].leaf,
    };
    let newn = pre.update(cur, parent).push(empty_node());
    assert forall|i: int| 0 <= i < newn.len() implies node_wf(newn, i) by {
        if i < pre.len() {
            assert(node_wf(pre, i));
        }
        if i == cur {
            assert forall|j: int|
                0 <= j < newn[i].children.len() implies i < #[trigger] newn[i].children[j].1
                < newn.len() by {
                if j < pre[cur].children.len() {
                    assert(newn[i].children[j] == pre[cur].children[j]);
                } else {
                    assert(newn[i].children[j] == (s, f));
                }
            }
        } else if i < pre.len() {
            assert(newn[i] == pre[i]);
            assert forall|j: int|
                0 <= j < newn[i].children.len() implies i < #[trigger] newn[i].children[j].1
                < newn.len() by {
                assert(i < pre[i].children[j].1 < pre.len());
            }
        } else {
            assert(newn[i] == empty_node());
        }
    }
}

pub proof fn lemma_wf_link_ph(pre: Seq<NodeView>, cur: int)
    requires
        nodes_wf(pre),
        pre.len() <= usize::MAX,
        0 <= cur < pre.len(),
    ensures
        ({
            let f = pre.len() as usize;
            let parent = NodeView {
                children: pre[cur].children,
                placeholder: Some(f),
                leaf: pre[cur].leaf,
            };
            nodes_wf(pre.update(cur, parent).push(empty_node()))
        }),
{
    let f = pre.len() as usize;
    let parent = NodeView { children: pre[cur].children, placeholder: Some(f), leaf: pre[cur].leaf };
    let newn = pre.update(cur, parent).push(empty_node());
    assert forall|i: int| 0 <= i < newn.len() implies node_wf(newn, i) by {
        if i < pre.len() {
            assert(node_wf(pre, i));
        }
        if i == cur {
            assert forall|j: int|
                0 <= j < newn[i].children.len() implies i < #[trigger] newn[i].children[j].1
                < newn.len() by {
                assert(newn[i].children[j] == pre[cur].children[j]);
                assert(i < pre[cur].children[j].1 < pre.len());
            }
        } else if i < pre.len() {
            assert(newn[i] == pre[i]);
            assert forall|j: int|
                0 <= j < newn[i].children.len() implies i < #[trigger] newn[i].children[j].1
                < newn.len() by {
                assert(i < pre[i].children[j].1 < pre.len());
            }
        } else {
            assert(newn[i] == empty_node());
        }
    }
}

pub proof fn lemma_wf_set_leaf(pre: Seq<NodeView>, cur: int, l: LeafView)
    requires
        nodes_wf(pre),
        0 <= cur < pre.len(),
    ensures
        nodes_wf(
            pre.update(
                cur,
                NodeView {
                    children: pre[cur].children,
                    placeholder: pre[cur].placeholder,
                    leaf: Some(l),
                },
            ),
        ),
{
    let newn = pre.update(
        cur,
        NodeView { children: pre[cur].children, placeholder: pre[cur].placeholder, leaf: Some(l) },
    );
    assert forall|i: int| 0 <= i < newn.len() implies node_wf(newn, i) by {
        assert(node_wf(pre, i));
        assert(newn[i].children == pre[i].children);
        assert(newn[i].placeholder == pre[i].placeholder);
        assert forall|j: int|
            0 <= j < newn[i].children.len() implies i < #[trigger] newn[i].children[j].1
            < newn.len() by {
            assert(i < pre[i].children[j].1 < pre.len());
        }
    }
}

impl RouteTable {
    /// The arena node a path shape leads to, if the shape has been built.
    fn find_pattern_node(&self, segs: &Vec<String>, params: &Vec<String>) -> (r: Option<usize>)
        requires
            self.wf(),
        ensures
            ({
                let pat = pattern_from(segs.deep_view(), params.deep_view());
                match r {
                    Some(i) => find_at(self@.nodes, 0, pat, 0) == Some(i as int) && (i as int)
                        < self@.nodes.len(),
                    None => find_at(self@.nodes, 0, pat, 0) is None,
                }
            }),
    {
        let ghost pat = pattern_from(segs.deep_view(), params.deep_view());
        let mut cur: usize = 0;
        let mut k: usize = 0;
        while k < segs.len()
            invariant
                self.wf(),
                pat == pattern_from(segs.deep_view(), params.deep_view()),
                pat.len() == segs.len(),
                k <= segs.len(),
                (cur as int) < self@.nodes.len(),
                find_at(self@.nodes, 0, pat, 0) == find_at(self@.nodes, cur as int, pat, k as int),
            decreases segs.len() - k,
        {
            let ghost nodesv = self@.nodes;
            proof {
                assert(node_wf(nodesv, cur as int));
                assert(self.nodes@[cur as int]@ == nodesv[cur as int]);
            }
            let is_ph = seg_is_placeholder(segs[k].as_str(), params);
            proof {
                assert(segs.deep_view()[k as int] == segs@[k as int]@);
            }
            if is_ph {
                match self.nodes[cur].placeholder_child {
                    Some(c) => {
                        cur = c;
                    },
                    None => {
                        return None;
                    },
                }
            } else {
                match children_find(&self.nodes[cur].literal_children, segs[k].as_str()) {
                    Some(c) => {
                        proof {
                            lemma_child_idx(nodesv[cur as int].children, segs.deep_view()[k as int], 0);
                        }
                        cur = c;
                    },
                    None => {
                        return None;
                    },
                }
            }
            k = k + 1;
        }
        Some(cur)
    }
}

} // verus!
verus! {

pub proof fn lemma_exact_idx(s: Seq<ExactEntryView>, path: Seq<char>, i: int)
    requires
        0 <= i <= s.len(),
    ensures
        exact_idx(s, path, i) == -1 ==> forall|j: int| i <= j < s.len() ==> s[j].path != path,
        exact_idx(s, path, i) != -1 ==> i <= exact_idx(s, path, i) < s.len()
            && s[exact_idx(s, path, i)].path == path,
    decreases s.len() - i,
{
    if i < s.len() && s[i].path != path {
        lemma_exact_idx(s, path, i + 1);
    }
}

impl RouteTable {
    /// Registers one route. A route whose path shape was already
    /// registered with different declared parameters is rejected, as is
    /// a route of no recognized kind; either rejection leaves the table
    /// exactly as it was. Otherwise the table becomes `apply_route` of
    /// its old state.
    pub fn register_route(&mut self, route: &RouteDef) -> (r: Result<(), RegisterError>)
        requires
            old(self).wf(),
        ensures
            final(self).wf(),
            match r {
                Ok(()) => !conflicts(old(self)@, route@) && !(route@.kind is Unrecognized)
                    && final(self)@ == apply_route(old(self)@, route@),
                Err(RegisterError::ConflictingParameters) => conflicts(old(self)@, route@)
                    && *final(self) == *old(self),
                Err(RegisterError::UnrecognizedRouteKind) => !conflicts(old(self)@, route@)
                    && route@.kind is Unrecognized && *final(self) == *old(self),
            },
    {
        let unrecognized = match &route.kind {
            RouteKind::Unrecognized => true,
            _ => false,
        };
        proof {
            assert(unrecognized == (route@.kind is Unrecognized));
        }
        let plain = route.param_names.len() == 0 && !route.is_static_mount;
        proof {
            assert(plain == goes_exact(route@));
        }
        if plain {
            match exact_find(&self.exact, route.path.as_str()) {
                Some(i) => {
                    proof {
                        lemma_exact_idx(self@.exact, route@.path, 0);
                        assert(self.exact@[i as int]@ == self@.exact[i as int]);
                        assert(exact_get(self@.exact, route@.path)
                            == Some(self@.exact[i as int].leaf));
                    }
                    let same = params_eq(
                        &self.exact[i].leaf.declared_parameters,
                        &route.param_names,
                    );
                    if !same {
                        return Err(RegisterError::ConflictingParameters);
                    }
                    if unrecognized {
                        return Err(RegisterError::UnrecognizedRouteKind);
                    }
                    let ghost pre = self@.exact;
                    let mut entry = self.exact.remove(i);
                    entry.leaf.merge_route(route);
                    self.exact.insert(i, entry);
                    proof {
                        assert(self@.exact =~= exact_set(
                            pre,
                            route@.path,
                            merged_leaf(exact_get(pre, route@.path), route@),
                        ));
                        assert(self@ == apply_route(old(self)@, route@));
                    }
                    Ok(())
                },
                None => {
                    if unrecognized {
                        return Err(RegisterError::UnrecognizedRouteKind);
                    }
                    let ghost pre = self@.exact;
                    let mut leaf = Leaf::new(&route.param_names);
                    leaf.merge_route(route);
                    proof {
                        assert(merged_leaf(Some(fresh_leaf(route@.params)), route@)
                            == merged_leaf(None, route@));
                    }
                    self.exact.push(ExactEntry { path: route.path.clone(), leaf });
                    proof {
                        assert(self@.exact =~= exact_set(
                            pre,
                            route@.path,
                            merged_leaf(None, route@),
                        ));
                        assert(self@ == apply_route(old(self)@, route@));
                    }
                    Ok(())
                },
            }
        } else {
            let segs = split_path(route.path.as_str());
            let ghost pat = route_pattern(route@);
            proof {
                assert(pat == pattern_from(segs.deep_view(), route.param_names.deep_view()));
            }
            match self.find_pattern_node(&segs, &route.param_names) {
                Some(i) => {
                    proof {
                        assert(self.nodes@[i as int]@ == self@.nodes[i as int]);
                        assert(leaf_at(self@.nodes, pat) == self@.nodes[i as int].leaf);
                    }
                    let conflicting = match &self.nodes[i].leaf {
                        Some(l) => !params_eq(&l.declared_parameters, &route.param_names),
                        None => false,
                    };
                    if conflicting {
                        return Err(RegisterError::ConflictingParameters);
                    }
                },
                None => {
                    proof {
                        assert(leaf_at(self@.nodes, pat) is None);
                    }
                },
            }
            if unrecognized {
                return Err(RegisterError::UnrecognizedRouteKind);
            }
            let ghost nodes0 = self@.nodes;
            let ghost goal = apply_trie(nodes0, 0, pat, 0, route@);
            let mut cur: usize = 0;
            let mut k: usize = 0;
            while k < segs.len()
                invariant
                    nodes_wf(self@.nodes),
                    self.exact == old(self).exact,
                    pat == pattern_from(segs.deep_view(), route.param_names.deep_view()),
                    pat.len() == segs.len(),
                    k <= segs.len(),
                    (cur as int) < self@.nodes.len(),
                    goal == apply_trie(self@.nodes, cur as int, pat, k as int, route@),
                decreases segs.len() - k,
            {
                let ghost nodesv = self@.nodes;
                proof {
                    assert(node_wf(nodesv, cur as int));
                    assert(self.nodes@[cur as int]@ == nodesv[cur as int]);
                    assert(segs.deep_view()[k as int] == segs@[k as int]@);
                }
                let is_ph = seg_is_placeholder(segs[k].as_str(), &route.param_names);
                if is_ph {
                    match self.nodes[cur].placeholder_child {
                        Some(c) => {
                            cur = c;
                        },
                        None => {
                            let f = self.nodes.len();
                            self.nodes.push(
                                TrieNode {
                                    literal_children: Vec::new(),
                                    placeholder_child: None,
                                    leaf: None,
                                },
                            );
                            self.nodes[cur].placeholder_child = Some(f);
                            proof {
                                assert(nodesv.len() == f as nat);
                                let parent = NodeView {
                                    children: nodesv[cur as int].children,
                                    placeholder: Some(f),
                                    leaf: nodesv[cur as int].leaf,
                                };
                                assert(self.nodes@[f as int]@.children =~= Seq::<(
                                    Seq<char>,
                                    usize,
                                )>::empty());
                                assert(self.nodes@[f as int]@ == empty_node());
                                assert(self@.nodes =~= nodesv.update(cur as int, parent).push(
                                    empty_node(),
                                ));
                                lemma_wf_link_ph(nodesv, cur as int);
                            }
                            cur = f;
                        },
                    }
                } else {
                    match children_find(&self.nodes[cur].literal_children, segs[k].as_str()) {
                        Some(c) => {
                            proof {
                                lemma_child_idx(
                                    nodesv[cur as int].children,
                                    segs.deep_view()[k as int],
                                    0,
                                );
                            }
                            cur = c;
                        },
                        None => {
                            let f = self.nodes.len();
                            self.nodes.push(
                                TrieNode {
                                    literal_children: Vec::new(),
                                    placeholder_child: None,
                                    leaf: None,
                                },
                            );
                            let seg = segs[k].clone();
                            self.nodes[cur].literal_children.push((seg, f));
                            proof {
                                assert(nodesv.len() == f as nat);
                                let parent = NodeView {
                                    children: nodesv[cur as int].children.push(
                                        (segs.deep_view()[k as int], f),
                                    ),
                                    placeholder: nodesv[cur as int].placeholder,
                                    leaf: nodesv[cur as int].leaf,
                                };
                                assert(self.nodes@[cur as int]@.children =~= parent.children);
                                assert(self.nodes@[f as int]@.children =~= Seq::<(
                                    Seq<char>,
                                    usize,
                                )>::empty());
                                assert(self.nodes@[f as int]@ == empty_node());
                                assert(self@.nodes =~= nodesv.update(cur as int, parent).push(
                                    empty_node(),
                                ));
                                lemma_wf_link_lit(nodesv, cur as int, segs.deep_view()[k as int]);
                            }
                            cur = f;
                        },
                    }
                }
                k = k + 1;
            }
            let ghost nodesv = self@.nodes;
            proof {
                assert(self.nodes@[cur as int]@ == nodesv[cur as int]);
            }
            let taken = self.nodes[cur].leaf.take();
            let mut lf = match taken {
                Some(l) => l,
                None => Leaf::new(&route.param_names),
            };
            lf.merge_route(route);
            proof {
                assert(merged_leaf(Some(fresh_leaf(route@.params)), route@)
                    == merged_leaf(None, route@));
            }
            self.nodes[cur].leaf = Some(lf);
            proof {
                let withleaf = NodeView {
                    children: nodesv[cur as int].children,
                    placeholder: nodesv[cur as int].placeholder,
                    leaf: Some(merged_leaf(nodesv[cur as int].leaf, route@)),
                };
                assert(self@.nodes =~= nodesv.update(cur as int, withleaf));
                lemma_wf_set_leaf(
                    nodesv,
                    cur as int,
                    merged_leaf(nodesv[cur as int].leaf, route@),
                );
                assert(self@.nodes == goal);
                assert(self@ == apply_route(old(self)@, route@));
            }
            Ok(())
        }
    }
}

} // verus!
verus! {

impl RouteTable {
    /// Resolves a request. The path is normalized, looked up in the
    /// exact-match table, and otherwise walked through the trie; the
    /// walk rewrites `path` in place when it crosses a static mount.
    /// The result is exactly what `resolve_model` says, and `path` ends
    /// as the model's outcome path.
    pub fn resolve(&self, path: &mut String, scope_kind: &str, method: &str) -> (r: Result<
        Resolution,
        ResolveError,
    >)
        requires
            self.wf(),
        ensures
            ({
                let m = resolve_model(self@, old(path)@, scope_kind@, method@);
                &&& final(path)@ == outcome_path(m)
                &&& match r {
                    Ok(res) => m matches ResolveOutcome::Found { handler, params, captured, path }
                        && res.handler == handler && res.param_names.deep_view() == params
                        && res.captured.deep_view() == captured,
                    Err(ResolveError::NotFound) => m is NoRoute,
                    Err(ResolveError::MethodNotAllowed) => m is WrongMethod,
                }
            }),
    {
        let norm = normalize_path(path.as_str());
        match exact_find(&self.exact, norm.as_str()) {
            Some(i) => {
                proof {
                    lemma_exact_idx(self@.exact, norm@, 0);
                    assert(self.exact@[i as int]@ == self@.exact[i as int]);
                    assert(exact_get(self@.exact, norm@) == Some(self@.exact[i as int].leaf));
                }
                let leaf = &self.exact[i].leaf;
                match leaf_pick(leaf, scope_kind, method) {
                    Ok(h) => {
                        let res = Resolution {
                            handler: h,
                            param_names: clone_strings(&leaf.declared_parameters),
                            captured: Vec::new(),
                        };
                        proof {
                            assert(res.captured.deep_view() =~= Seq::<Seq<char>>::empty());
                        }
                        Ok(res)
                    },
                    Err(e) => Err(e),
                }
            },
            None => {
                let segs = split_path(norm.as_str());
                let ghost segsv = segs.deep_view();
                let ghost w = walk_from(self@.nodes, 0, segsv, 0, Seq::empty(), old(path)@);
                let mut captured: Vec<String> = Vec::new();
                let mut cur: usize = 0;
                let mut k: usize = 0;
                proof {
                    assert(captured.deep_view() =~= Seq::<Seq<char>>::empty());
                }
                while k < segs.len()
                    invariant
                        self.wf(),
                        norm@ == norm_path(old(path)@),
                        exact_idx(self@.exact, norm@, 0) == -1,
                        segsv == split_segments(norm@),
                        w == walk_from(self@.nodes, 0, segsv, 0, Seq::empty(), old(path)@),
                        segsv == segs.deep_view(),
                        segsv.len() == segs.len(),
                        k <= segs.len(),
                        (cur as int) < self@.nodes.len(),
                        w == walk_from(
                            self@.nodes,
                            cur as int,
                            segsv,
                            k as int,
                            captured.deep_view(),
                            path@,
                        ),
                    decreases segs.len() - k,
                {
                    let ghost nodesv = self@.nodes;
                    proof {
                        assert(node_wf(nodesv, cur as int));
                        assert(self.nodes@[cur as int]@ == nodesv[cur as int]);
                        assert(segsv[k as int] == segs@[k as int]@);
                    }
                    match children_find(&self.nodes[cur].literal_children, segs[k].as_str()) {
                        Some(c) => {
                            proof {
                                lemma_child_idx(nodesv[cur as int].children, segsv[k as int], 0);
                            }
                            cur = c;
                        },
                        None => {
                            match self.nodes[cur].placeholder_child {
                                Some(c) => {
                                    let ghost capsv = captured.deep_view();
                                    captured.push(segs[k].clone());
                                    proof {
                                        assert(captured.deep_view() =~= capsv.push(
                                            segsv[k as int],
                                        ));
                                    }
                                    cur = c;
                                },
                                None => {
                                    match &self.nodes[cur].leaf {
                                        Some(l) => match &l.static_mount_prefix {
                                            Some(sp) => {
                                                if !str_eq(sp.as_str(), "/") {
                                                    strip_prefix_once(path, sp.as_str());
                                                }
                                            },
                                            None => {
                                                proof {
                                                    assert(w == WalkEnd {
                                                        dest: None,
                                                        captured: captured.deep_view(),
                                                        path: path@,
                                                    });
                                                }
                                                return Err(ResolveError::NotFound);
                                            },
                                        },
                                        None => {
                                            proof {
                                                assert(w == WalkEnd {
                                                    dest: None,
                                                    captured: captured.deep_view(),
                                                    path: path@,
                                                });
                                            }
                                            return Err(ResolveError::NotFound);
                                        },
                                    }
                                },
                            }
                        },
                    }
                    k = k + 1;
                }
                proof {
                    assert(w == WalkEnd {
                        dest: Some(cur as int),
                        captured: captured.deep_view(),
                        path: path@,
                    });
                    assert(self.nodes@[cur as int]@ == self@.nodes[cur as int]);
                }
                match &self.nodes[cur].leaf {
                    None => Err(ResolveError::NotFound),
                    Some(leaf) => match leaf_pick(leaf, scope_kind, method) {
                        Ok(h) => {
                            let res = Resolution {
                                handler: h,
                                param_names: clone_strings(&leaf.declared_parameters),
                                captured,
                            };
                            Ok(res)
                        },
                        Err(e) => Err(e),
                    },
                }
            },
        }
    }

    /// Registers a batch of routes in order. The first rejected route
    /// stops the batch and is reported; routes registered before it
    /// stay.
    pub fn register(&mut self, routes: &Vec<RouteDef>) -> (r: Result<(), RegisterError>)
        requires
            old(self).wf(),
        ensures
            final(self).wf(),
            ({
                let (tv, e) = apply_batch(old(self)@, routes.deep_view());
                &&& final(self)@ == tv
                &&& match r {
                    Ok(()) => e is None,
                    Err(er) => e == Some(er),
                }
            }),
    {
        let ghost rs = routes.deep_view();
        proof {
            assert(rs.skip(0) =~= rs);
        }
        let mut i: usize = 0;
        while i < routes.len()
            invariant
                self.wf(),
                rs == routes.deep_view(),
                rs.len() == routes.len(),
                i <= routes.len(),
                apply_batch(old(self)@, rs) == apply_batch(self@, rs.skip(i as int)),
            decreases routes.len() - i,
        {
            proof {
                assert(rs.skip(i as int)[0] == rs[i as int]);
                assert(rs.skip(i as int).drop_first() =~= rs.skip(i + 1));
                assert(routes@[i as int]@ == rs[i as int]);
            }
            match self.register_route(&routes[i]) {
                Ok(()) => {},
                Err(e) => {
                    return Err(e);
                },
            }
            i = i + 1;
        }
        proof {
            assert(rs.skip(rs.len() as int) =~= Seq::<RouteDefView>::empty());
        }
        Ok(())
    }
}

} // verus!
verus! {

/// The handler references a leaf holds, in storage order.
pub open spec fn leaf_handler_refs(l: LeafView) -> Seq<u64> {
    Seq::new(l.handlers.len(), |i: int| l.handlers[i].1)
}

/// The handler references a node holds: its leaf's, if it has one.
pub open spec fn node_handler_refs(n: NodeView) -> Seq<u64> {
    match n.leaf {
        Some(l) => leaf_handler_refs(l),
        None => Seq::empty(),
    }
}

/// All handler references in the exact-match table, in table order.
pub open spec fn exact_handler_refs(s: Seq<ExactEntryView>) -> Seq<u64>
    decreases s.len(),
{
    if s.len() == 0 {
        Seq::empty()
    } else {
        exact_handler_refs(s.drop_last()) + leaf_handler_refs(s.last().leaf)
    }
}

/// All handler references in the trie, in arena order.
pub open spec fn trie_handler_refs(s: Seq<NodeView>) -> Seq<u64>
    decreases s.len(),
{
    if s.len() == 0 {
        Seq::empty()
    } else {
        trie_handler_refs(s.drop_last()) + node_handler_refs(s.last())
    }
}

/// Every handler reference the table holds, each exactly once.
pub open spec fn table_handler_refs(t: TableView) -> Seq<u64> {
    exact_handler_refs(t.exact) + trie_handler_refs(t.nodes)
}

/// Appends every handler reference of `leaf` to `out`.
fn push_leaf_refs(out: &mut Vec<u64>, leaf: &Leaf)
    ensures
        final(out)@ == old(out)@ + leaf_handler_refs(leaf@),
{
    let ghost base = out@;
    let mut j: usize = 0;
    while j < leaf.handlers.len()
        invariant
            j <= leaf.handlers.len(),
            out@ == base + leaf_handler_refs(leaf@).take(j as int),
        decreases leaf.handlers.len() - j,
    {
        out.push(leaf.handlers[j].1);
        proof {
            assert(leaf.handlers.deep_view()[j as int].1 == leaf.handlers@[j as int].1);
            assert(out@ =~= base + leaf_handler_refs(leaf@).take(j + 1));
        }
        j = j + 1;
    }
    proof {
        assert(leaf_handler_refs(leaf@).take(leaf.handlers@.len() as int) =~= leaf_handler_refs(
            leaf@,
        ));
    }
}

impl RouteTable {
    /// Enumerates every handler reference the table holds, visiting each
    /// exact-match entry and each trie node exactly once. The traversal
    /// is one flat pass over the arena, with no recursion, so it serves
    /// as the host's walk over all externally owned handles whatever the
    /// trie's depth.
    pub fn handler_refs(&self) -> (r: Vec<u64>)
        ensures
            r@ == table_handler_refs(self@),
    {
        let mut out: Vec<u64> = Vec::new();
        proof {
            assert(out@ =~= Seq::<u64>::empty());
        }
        let mut i: usize = 0;
        while i < self.exact.len()
            invariant
                i <= self.exact.len(),
                self@.exact.len() == self.exact.len(),
                out@ == exact_handler_refs(self@.exact.take(i as int)),
            decreases self.exact.len() - i,
        {
            push_leaf_refs(&mut out, &self.exact[i].leaf);
            proof {
                let s = self@.exact;
                assert(self.exact@[i as int]@ == s[i as int]);
                assert(s.take(i + 1).drop_last() =~= s.take(i as int));
                assert(s.take(i + 1).last() == s[i as int]);
                assert(out@ == exact_handler_refs(s.take(i + 1)));
            }
            i = i + 1;
        }
        proof {
            assert(self@.exact.take(self@.exact.len() as int) =~= self@.exact);
        }
        let ghost base = out@;
        let mut j: usize = 0;
        while j < self.nodes.len()
            invariant
                j <= self.nodes.len(),
                self@.nodes.len() == self.nodes.len(),
                base == exact_handler_refs(self@.exact),
                out@ == base + trie_handler_refs(self@.nodes.take(j as int)),
            decreases self.nodes.len() - j,
        {
            proof {
                let s = self@.nodes;
                assert(self.nodes@[j as int]@ == s[j as int]);
                assert(s.take(j + 1).drop_last() =~= s.take(j as int));
                assert(s.take(j + 1).last() == s[j as int]);
            }
            match &self.nodes[j].leaf {
                Some(leaf) => {
                    push_leaf_refs(&mut out, leaf);
                },
                None => {
                    proof {
                        assert(out@ =~= out@ + Seq::<u64>::empty());
                    }
                },
            }
            proof {
                assert(out@ == base + trie_handler_refs(self@.nodes.take(j + 1)));
            }
            j = j + 1;
        }
        proof {
            assert(self@.nodes.take(self@.nodes.len() as int) =~= self@.nodes);
        }
        out
    }
}

} // verus!
