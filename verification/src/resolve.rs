//! Resolving the routes of a tree of nodes against the current path.
use vstd::prelude::*;
use crate::params::{map_contents, RouteParams};
use crate::parse::{PathMatchError, law_match_ignores_rest, law_match_splits_path, lemma_parse_rest_single_byte, parse_spec, ParamMap, RouteParseResult};
use crate::path::{is_root_pattern, SegmentView};
use crate::route::{best_route, law_best_route_is_most_specific, patterns_empty, Route};
use crate::text::{single_byte_at, str_eq};
use vstd::string::*;

verus! {

/// The route that a node shows at present, remembered by the text it matched.
#[derive(Debug)]
pub struct MatchedRoute(String);

impl View for MatchedRoute {
    type V = Seq<char>;

    closed spec fn view(&self) -> Seq<char> {
        self.0@
    }
}

impl MatchedRoute {
    /// A node matched by `matched`.
    pub fn new(matched: String) -> (r: Self)
        ensures
            r@ == matched@,
    {
        MatchedRoute(matched)
    }

    /// The text the node was matched by.
    pub fn as_str(&self) -> (r: &str)
        ensures
            r@ == self@,
    {
        self.0.as_str()
    }
}

/// One node of the tree: its routes, if it has any, the route it shows at present, if any,
/// and the positions of its children in the tree.
pub struct RouteNode<'r, E> {
    pub route: Option<&'r Route<E>>,
    pub matched: Option<&'r MatchedRoute>,
    pub children: Vec<usize>,
}

/// A tree of nodes, each child placed after its parent.
pub struct RouteTree<'r, E> {
    pub nodes: Vec<RouteNode<'r, E>>,
}

impl<'r, E> RouteTree<'r, E> {
    /// Every child lies in the tree, after its parent.
    pub open spec fn wf(&self) -> bool {
        forall|i: int, k: int|
            0 <= i < self.nodes@.len() && 0 <= k < self.nodes@[i].children@.len() ==> i
                < #[trigger] self.nodes@[i].children@[k] < self.nodes@.len()
    }

    /// Whether the tree below node `root` can be resolved against `pathname`: the path's first
    /// character takes a single byte, or no pattern met on the way reads a segment.
    pub fn can_resolve(&self, root: usize, pathname: &str) -> (r: bool)
        requires
            self.wf(),
            root < self.nodes@.len(),
        ensures
            r == resolvable(self, root as int, pathname@),
    {
        let n = pathname.unicode_len();
        if n == 0 || (pathname.get_char(0) as u32) < 128 {
            return true;
        }
        self.children_read_nothing_from(root)
    }

    /// Whether no node below node `p` has a pattern that reads a segment.
    fn children_read_nothing_from(&self, p: usize) -> (r: bool)
        requires
            self.wf(),
            p < self.nodes@.len(),
        ensures
            r == children_read_nothing(self, p as int, self.nodes@[p as int].children@.len() as int),
        decreases self.nodes@.len() - p,
    {
        let n = self.nodes[p].children.len();
        let mut all = true;
        let mut k: usize = 0;
        while k < n
            invariant
                self.wf(),
                p < self.nodes@.len(),
                n == self.nodes@[p as int].children@.len(),
                k <= n,
                all == children_read_nothing(self, p as int, k as int),
            decreases n - k,
        {
            let c = self.nodes[p].children[k];
            assert(p < c < self.nodes@.len());
            let here = match self.nodes[c].route {
                None => true,
                Some(route) => route.has_only_empty_patterns(),
            };
            let below = self.children_read_nothing_from(c);
            assert(here == node_reads_nothing(self, c as int));
            assert(subtree_reads_nothing(self, c as int) == (here && below));
            assert(children_read_nothing(self, p as int, k + 1) == (children_read_nothing(
                self,
                p as int,
                k as int,
            ) && subtree_reads_nothing(self, c as int)));
            all = all && here && below;
            k = k + 1;
        }
        all
    }
}

/// A node to switch to the route at `route` of its routes, which matched the text `matched`.
#[derive(Debug, PartialEq, Eq)]
pub struct RouteUpdate {
    pub node: usize,
    pub route: usize,
    pub matched: String,
}

/// The content of a [`RouteUpdate`].
pub struct UpdateView {
    pub node: int,
    pub route: int,
    pub matched: Seq<char>,
}

impl View for RouteUpdate {
    type V = UpdateView;

    open spec fn view(&self) -> UpdateView {
        UpdateView { node: self.node as int, route: self.route as int, matched: self.matched@ }
    }
}

/// The contents of a list of updates.
pub open spec fn updates_view(v: Seq<RouteUpdate>) -> Seq<UpdateView> {
    v.map_values(|u: RouteUpdate| u@)
}

/// Where a walk over the tree stands: the path left to match, the updates so far and the
/// parameters bound so far.
pub struct WalkState {
    pub path: Seq<char>,
    pub updates: Seq<UpdateView>,
    pub params: ParamMap,
}

/// What node `c` does to the walk: when it has routes and one of them is chosen for the path
/// left, the path moves past what that route matched; if the node does not already show a
/// route matched by that same text, the node is updated to it and the route's parameters are
/// bound.
pub open spec fn step<'r, E>(t: &RouteTree<'r, E>, c: int, st: WalkState) -> WalkState {
    let node = t.nodes@[c];
    match node.route {
        None => st,
        Some(r) => match best_route(r.paths(), st.path) {
            None => st,
            Some(i) => match parse_spec(r.paths()[i], st.path) {
                Ok((pos, ps)) => {
                    let matched = st.path.subrange(0, pos);
                    let rest = st.path.subrange(pos, st.path.len() as int);
                    if node.matched is None || node.matched.unwrap()@ != matched {
                        WalkState {
                            path: rest,
                            updates: st.updates.push(UpdateView { node: c, route: i, matched }),
                            params: st.params.union_prefer_right(ps),
                        }
                    } else {
                        WalkState { path: rest, ..st }
                    }
                },
                Err(_) => st,
            },
        },
    }
}

/// The walk over the first `k` children of node `p`, each child's step followed by the walk
/// over its own children.
pub open spec fn walk_children<'r, E>(t: &RouteTree<'r, E>, p: int, k: int, st: WalkState) -> WalkState
    decreases t.nodes@.len() - p, 0int, k,
{
    if p < 0 || p >= t.nodes@.len() || k <= 0 || k > t.nodes@[p].children@.len() {
        st
    } else {
        let c = t.nodes@[p].children@[k - 1] as int;
        let before = walk_children(t, p, k - 1, st);
        if p < c < t.nodes@.len() {
            visit(t, c, before)
        } else {
            before
        }
    }
}

/// The walk over node `c`: its step, then the walk over all its children.
pub open spec fn visit<'r, E>(t: &RouteTree<'r, E>, c: int, st: WalkState) -> WalkState
    decreases t.nodes@.len() - c, 1int, 0int,
{
    if c < 0 || c >= t.nodes@.len() {
        st
    } else {
        walk_children(t, c, t.nodes@[c].children@.len() as int, step(t, c, st))
    }
}

/// What one node does to the walk. A node without routes, or whose routes do not match the
/// path left, changes nothing. Otherwise let `m` be what its chosen route matched: the path
/// moves past `m`; a node that shows no route, or shows one matched by a text other than `m`,
/// is updated to the chosen route with `m` and the route's parameters are bound; a node that
/// already shows a route matched by `m` is left as it is and binds nothing.
pub proof fn law_step<'r, E>(t: &RouteTree<'r, E>, c: int, st: WalkState)
    requires
        0 <= c < t.nodes@.len(),
    ensures
        match t.nodes@[c].route {
            None => step(t, c, st) == st,
            Some(r) => match best_route(r.paths(), st.path) {
                None => step(t, c, st) == st,
                Some(i) => {
                    let (pos, ps) = parse_spec(r.paths()[i], st.path)->Ok_0;
                    let m = st.path.subrange(0, pos);
                    let rest = st.path.subrange(pos, st.path.len() as int);
                    let shows_m = match t.nodes@[c].matched {
                        Some(shown) => shown@ == m,
                        None => false,
                    };
                    &&& !shows_m ==> step(t, c, st) == (WalkState {
                        path: rest,
                        updates: st.updates.push(UpdateView { node: c, route: i, matched: m }),
                        params: st.params.union_prefer_right(ps),
                    })
                    &&& shows_m ==> step(t, c, st) == (WalkState {
                        path: rest,
                        updates: st.updates,
                        params: st.params,
                    })
                },
            },
        },
{
    if let Some(r) = t.nodes@[c].route {
        if let Some(i) = best_route(r.paths(), st.path) {
            law_best_route_is_most_specific(r.paths(), st.path);
            assert(parse_spec(r.paths()[i], st.path) is Ok);
            let (pos, ps) = parse_spec(r.paths()[i], st.path)->Ok_0;
            assert(parse_spec(r.paths()[i], st.path) == Ok::<(int, ParamMap), PathMatchError>(
                (pos, ps),
            ));
            let m = st.path.subrange(0, pos);
            let rest = st.path.subrange(pos, st.path.len() as int);
            if t.nodes@[c].matched is None || t.nodes@[c].matched.unwrap()@ != m {
                assert(step(t, c, st) == WalkState {
                    path: rest,
                    updates: st.updates.push(UpdateView { node: c, route: i, matched: m }),
                    params: st.params.union_prefer_right(ps),
                });
            } else {
                assert(step(t, c, st) == WalkState { path: rest, updates: st.updates, params: st.params });
            }
        }
    }
}

/// The walk goes depth first through the children in order: over no children it changes
/// nothing; over the first `k + 1` children it is the walk over the first `k` followed by the
/// visit of child `k`; and the visit of a node is its step followed by the walk over all its
/// children.
pub proof fn law_walk_order<'r, E>(t: &RouteTree<'r, E>, p: int, k: int, st: WalkState)
    requires
        t.wf(),
        0 <= p < t.nodes@.len(),
        0 <= k < t.nodes@[p].children@.len(),
    ensures
        walk_children(t, p, 0, st) == st,
        walk_children(t, p, k + 1, st) == visit(
            t,
            t.nodes@[p].children@[k] as int,
            walk_children(t, p, k, st),
        ),
        visit(t, p, st) == walk_children(
            t,
            p,
            t.nodes@[p].children@.len() as int,
            step(t, p, st),
        ),
{
    assert(p < t.nodes@[p].children@[k] < t.nodes@.len());
}

/// A step only moves along the path and adds updates after the ones there were.
proof fn lemma_step_progress<'r, E>(t: &RouteTree<'r, E>, c: int, st: WalkState)
    requires
        0 <= c < t.nodes@.len(),
    ensures
        ({
            let end = step(t, c, st);
            &&& end.updates.len() >= st.updates.len()
            &&& end.updates.subrange(0, st.updates.len() as int) == st.updates
            &&& exists|d: int| 0 <= d <= st.path.len() && end.path == st.path.subrange(d, st.path.len() as int)
        }),
{
    let end = step(t, c, st);
    assert(st.updates.subrange(0, st.updates.len() as int) =~= st.updates);
    if let Some(r) = t.nodes@[c].route {
        if let Some(i) = best_route(r.paths(), st.path) {
            if let Ok((pos, ps)) = parse_spec(r.paths()[i], st.path) {
                law_match_splits_path(r.paths()[i], st.path);
                let u = UpdateView { node: c, route: i, matched: st.path.subrange(0, pos) };
                assert(st.updates.push(u).subrange(0, st.updates.len() as int) =~= st.updates);
                assert(end.path == st.path.subrange(pos, st.path.len() as int));
            } else {
                assert(end.path == st.path.subrange(0, st.path.len() as int));
            }
        } else {
            assert(end.path == st.path.subrange(0, st.path.len() as int));
        }
    } else {
        assert(end.path == st.path.subrange(0, st.path.len() as int));
    }
}

/// Progress is kept along a chain of states.
proof fn lemma_progress_trans(a: WalkState, b: WalkState, c: WalkState)
    requires
        b.updates.len() >= a.updates.len(),
        b.updates.subrange(0, a.updates.len() as int) == a.updates,
        exists|d: int| 0 <= d <= a.path.len() && b.path == a.path.subrange(d, a.path.len() as int),
        c.updates.len() >= b.updates.len(),
        c.updates.subrange(0, b.updates.len() as int) == b.updates,
        exists|d: int| 0 <= d <= b.path.len() && c.path == b.path.subrange(d, b.path.len() as int),
    ensures
        c.updates.len() >= a.updates.len(),
        c.updates.subrange(0, a.updates.len() as int) == a.updates,
        exists|d: int| 0 <= d <= a.path.len() && c.path == a.path.subrange(d, a.path.len() as int),
{
    let d1 = choose|d: int| 0 <= d <= a.path.len() && b.path == a.path.subrange(d, a.path.len() as int);
    let d2 = choose|d: int| 0 <= d <= b.path.len() && c.path == b.path.subrange(d, b.path.len() as int);
    assert(c.path =~= a.path.subrange(d1 + d2, a.path.len() as int));
    assert(c.updates.subrange(0, a.updates.len() as int) =~= c.updates.subrange(
        0,
        b.updates.len() as int,
    ).subrange(0, a.updates.len() as int));
}

/// The walk over the first `k` children of `p` only moves along the path and adds updates.
proof fn lemma_walk_children_progress<'r, E>(t: &RouteTree<'r, E>, p: int, k: int, st: WalkState)
    ensures
        ({
            let end = walk_children(t, p, k, st);
            &&& end.updates.len() >= st.updates.len()
            &&& end.updates.subrange(0, st.updates.len() as int) == st.updates
            &&& exists|d: int| 0 <= d <= st.path.len() && end.path == st.path.subrange(d, st.path.len() as int)
        }),
    decreases t.nodes@.len() - p, 0int, k,
{
    assert(st.updates.subrange(0, st.updates.len() as int) =~= st.updates);
    assert(st.path == st.path.subrange(0, st.path.len() as int));
    if !(p < 0 || p >= t.nodes@.len() || k <= 0 || k > t.nodes@[p].children@.len()) {
        let c = t.nodes@[p].children@[k - 1] as int;
        let before = walk_children(t, p, k - 1, st);
        lemma_walk_children_progress(t, p, k - 1, st);
        if p < c < t.nodes@.len() {
            lemma_visit_progress(t, c, before);
            lemma_progress_trans(st, before, visit(t, c, before));
        }
    }
}

/// The visit of node `c` only moves along the path and adds updates.
proof fn lemma_visit_progress<'r, E>(t: &RouteTree<'r, E>, c: int, st: WalkState)
    ensures
        ({
            let end = visit(t, c, st);
            &&& end.updates.len() >= st.updates.len()
            &&& end.updates.subrange(0, st.updates.len() as int) == st.updates
            &&& exists|d: int| 0 <= d <= st.path.len() && end.path == st.path.subrange(d, st.path.len() as int)
        }),
    decreases t.nodes@.len() - c, 1int, 0int,
{
    assert(st.updates.subrange(0, st.updates.len() as int) =~= st.updates);
    assert(st.path == st.path.subrange(0, st.path.len() as int));
    if 0 <= c < t.nodes@.len() {
        lemma_step_progress(t, c, st);
        let mid = step(t, c, st);
        lemma_walk_children_progress(t, c, t.nodes@[c].children@.len() as int, mid);
        lemma_progress_trans(st, mid, visit(t, c, st));
    }
}

/// Resolving keeps what came before: the walk over the children of `p` never drops or reorders
/// earlier updates, only adds after them, and the path left is always a suffix of the path it
/// started from, so each node matches against what the nodes before it left over.
pub proof fn law_walk_progress<'r, E>(t: &RouteTree<'r, E>, p: int, st: WalkState)
    ensures
        ({
            let end = walk_children(t, p, t.nodes@[p].children@.len() as int, st);
            &&& end.updates.len() >= st.updates.len()
            &&& end.updates.subrange(0, st.updates.len() as int) == st.updates
            &&& exists|d: int| 0 <= d <= st.path.len() && end.path == st.path.subrange(d, st.path.len() as int)
        }),
{
    lemma_walk_children_progress(t, p, t.nodes@[p].children@.len() as int, st);
}

/// Every update names a node of the tree that has routes, and one of that node's routes.
pub open spec fn valid_updates<'r, E>(t: &RouteTree<'r, E>, us: Seq<UpdateView>) -> bool {
    forall|k: int|
        0 <= k < us.len() ==> {
            let u = #[trigger] us[k];
            &&& 0 <= u.node < t.nodes@.len()
            &&& t.nodes@[u.node].route matches Some(r) && 0 <= u.route < r.elements().len()
        }
}

/// Maps merged in order, each overriding the bindings before it.
pub open spec fn merged(bs: Seq<ParamMap>) -> ParamMap
    decreases bs.len(),
{
    if bs.len() == 0 {
        Map::empty()
    } else {
        merged(bs.drop_last()).union_prefer_right(bs.last())
    }
}

/// The parameters that an update binds: those that its route's pattern binds in the text the
/// update matched.
pub open spec fn update_binding<'r, E>(t: &RouteTree<'r, E>, u: UpdateView) -> ParamMap {
    parse_spec(t.nodes@[u.node].route.unwrap().paths()[u.route], u.matched)->Ok_0.1
}

/// The parameters that a list of updates binds, later updates overriding earlier ones.
pub open spec fn merged_bindings<'r, E>(t: &RouteTree<'r, E>, us: Seq<UpdateView>) -> ParamMap {
    merged(us.map_values(|u: UpdateView| update_binding(t, u)))
}

/// The walk's parameters are what its updates bind.
pub open spec fn params_follow_updates<'r, E>(t: &RouteTree<'r, E>, st: WalkState) -> bool {
    st.params == merged_bindings(t, st.updates)
}

/// A name bound by some map is bound after merging to its value in the last map binding it.
pub proof fn law_merged_last(bs: Seq<ParamMap>, n: Seq<char>, k: int)
    requires
        0 <= k < bs.len(),
        bs[k].contains_key(n),
        forall|j: int| k < j < bs.len() ==> !(#[trigger] bs[j]).contains_key(n),
    ensures
        merged(bs).contains_key(n),
        merged(bs)[n] == bs[k][n],
    decreases bs.len(),
{
    if k < bs.len() - 1 {
        law_merged_last(bs.drop_last(), n, k);
    }
}

/// A name that no map binds is not bound after merging.
pub proof fn law_merged_absent(bs: Seq<ParamMap>, n: Seq<char>)
    requires
        forall|j: int| 0 <= j < bs.len() ==> !(#[trigger] bs[j]).contains_key(n),
    ensures
        !merged(bs).contains_key(n),
    decreases bs.len(),
{
    if bs.len() > 0 {
        law_merged_absent(bs.drop_last(), n);
    }
}

/// A step keeps the walk's parameters equal to what its updates bind.
proof fn lemma_step_params<'r, E>(t: &RouteTree<'r, E>, c: int, st: WalkState)
    requires
        0 <= c < t.nodes@.len(),
        params_follow_updates(t, st),
    ensures
        params_follow_updates(t, step(t, c, st)),
{
    let node = t.nodes@[c];
    if let Some(r) = node.route {
        if let Some(i) = best_route(r.paths(), st.path) {
            if let Ok((pos, ps)) = parse_spec(r.paths()[i], st.path) {
                let pat = r.paths()[i];
                let matched = st.path.subrange(0, pos);
                if node.matched is None || node.matched.unwrap()@ != matched {
                    let u = UpdateView { node: c, route: i, matched };
                    if is_root_pattern(pat) {
                        if st.path != seq!['/'] {
                            assert(pat.drop_last() =~= Seq::<SegmentView>::empty());
                        }
                        assert(matched =~= st.path);
                    } else {
                        law_match_ignores_rest(pat, st.path, seq![]);
                        assert(matched + Seq::<char>::empty() =~= matched);
                    }
                    assert(update_binding(t, u) == ps);
                    let f = |u: UpdateView| update_binding(t, u);
                    assert(st.updates.push(u).map_values(f) =~= st.updates.map_values(f).push(
                        ps,
                    ));
                    assert(st.updates.map_values(f).push(ps).drop_last() =~= st.updates.map_values(
                        f,
                    ));
                }
            }
        }
    }
}

/// The walk over the first `k` children of node `p` keeps the parameters equal to what the
/// updates bind.
proof fn lemma_walk_children_params<'r, E>(t: &RouteTree<'r, E>, p: int, k: int, st: WalkState)
    requires
        params_follow_updates(t, st),
    ensures
        params_follow_updates(t, walk_children(t, p, k, st)),
    decreases t.nodes@.len() - p, 0int, k,
{
    if !(p < 0 || p >= t.nodes@.len() || k <= 0 || k > t.nodes@[p].children@.len()) {
        let c = t.nodes@[p].children@[k - 1] as int;
        lemma_walk_children_params(t, p, k - 1, st);
        if p < c < t.nodes@.len() {
            lemma_visit_params(t, c, walk_children(t, p, k - 1, st));
        }
    }
}

/// The walk over node `c` keeps the parameters equal to what the updates bind.
proof fn lemma_visit_params<'r, E>(t: &RouteTree<'r, E>, c: int, st: WalkState)
    requires
        params_follow_updates(t, st),
    ensures
        params_follow_updates(t, visit(t, c, st)),
    decreases t.nodes@.len() - c, 1int, 0int,
{
    if 0 <= c < t.nodes@.len() {
        lemma_step_params(t, c, st);
        lemma_walk_children_params(t, c, t.nodes@[c].children@.len() as int, step(t, c, st));
    }
}

/// After resolving, the parameters are exactly what the updates bind, in order: each name is
/// bound to its value in the last update whose route binds it, and no other name is bound.
pub proof fn law_resolved_params<'r, E>(t: &RouteTree<'r, E>, root: int, s: Seq<char>)
    ensures
        ({
            let end = walk_children(
                t,
                root,
                t.nodes@[root].children@.len() as int,
                WalkState { path: s, updates: Seq::empty(), params: Map::empty() },
            );
            end.params == merged_bindings(t, end.updates)
        }),
{
    let st = WalkState { path: s, updates: Seq::empty(), params: Map::empty() };
    let f = |u: UpdateView| update_binding(t, u);
    assert(st.updates.map_values(f) =~= Seq::<ParamMap>::empty());
    lemma_walk_children_params(t, root, t.nodes@[root].children@.len() as int, st);
}

/// Node `c` has no routes, or none of its patterns reads a segment.
pub open spec fn node_reads_nothing<'r, E>(t: &RouteTree<'r, E>, c: int) -> bool {
    match t.nodes@[c].route {
        None => true,
        Some(r) => patterns_empty(r.paths()),
    }
}

/// No node below the first `k` children of node `p`, those children included, has a pattern
/// that reads a segment.
pub open spec fn children_read_nothing<'r, E>(t: &RouteTree<'r, E>, p: int, k: int) -> bool
    decreases t.nodes@.len() - p, 0int, k,
{
    if p < 0 || p >= t.nodes@.len() || k <= 0 || k > t.nodes@[p].children@.len() {
        true
    } else {
        let c = t.nodes@[p].children@[k - 1] as int;
        &&& children_read_nothing(t, p, k - 1)
        &&& (p < c < t.nodes@.len() ==> subtree_reads_nothing(t, c))
    }
}

/// Neither node `c` nor any node below it has a pattern that reads a segment.
pub open spec fn subtree_reads_nothing<'r, E>(t: &RouteTree<'r, E>, c: int) -> bool
    decreases t.nodes@.len() - c, 1int, 0int,
{
    if c < 0 || c >= t.nodes@.len() {
        true
    } else {
        node_reads_nothing(t, c) && children_read_nothing(
            t,
            c,
            t.nodes@[c].children@.len() as int,
        )
    }
}

/// Resolving below node `root` can read `s`: its first character takes a single byte, or no
/// pattern met on the way reads a segment (segments are cut at byte offsets).
pub open spec fn resolvable<'r, E>(t: &RouteTree<'r, E>, root: int, s: Seq<char>) -> bool {
    single_byte_at(s, 0) || children_read_nothing(
        t,
        root,
        t.nodes@[root].children@.len() as int,
    )
}

/// All children, and all nodes below them, of a node whose children read nothing read nothing.
proof fn lemma_children_read_nothing<'r, E>(t: &RouteTree<'r, E>, p: int, n: int, k: int)
    requires
        0 <= p < t.nodes@.len(),
        0 <= k < n <= t.nodes@[p].children@.len(),
        children_read_nothing(t, p, n),
        p < t.nodes@[p].children@[k] < t.nodes@.len(),
    ensures
        subtree_reads_nothing(t, t.nodes@[p].children@[k] as int),
    decreases n - k,
{
    if k < n - 1 {
        lemma_children_read_nothing(t, p, n - 1, k);
    }
}

/// The state of a walk held in executable values.
pub open spec fn state_of(path: Seq<char>, updates: Seq<RouteUpdate>, params: ParamMap) -> WalkState {
    WalkState { path, updates: updates_view(updates), params }
}

/// Node `c`'s step, carried out.
fn step_node<'r, 'p, E>(
    t: &RouteTree<'r, E>,
    c: usize,
    path: &'p str,
    params: &mut RouteParams,
    updates: &mut Vec<RouteUpdate>,
) -> (rest: &'p str)
    requires
        c < t.nodes@.len(),
        single_byte_at(path@, 0) || node_reads_nothing(t, c as int),
        valid_updates(t, updates_view(old(updates)@)),
    ensures
        single_byte_at(path@, 0) ==> single_byte_at(rest@, 0),
        !single_byte_at(path@, 0) ==> rest@ == path@,
        valid_updates(t, updates_view(final(updates)@)),
        state_of(rest@, final(updates)@, final(params)@) == step(
            t,
            c as int,
            state_of(path@, old(updates)@, old(params)@),
        ),
{
    let node = &t.nodes[c];
    match node.route {
        None => path,
        Some(route) => {
            match route.best_match(path) {
                None => path,
                Some((i, res)) => {
                    proof {
                        law_best_route_is_most_specific(route.paths(), path@);
                        route.lemma_paths_elements_len();
                        if single_byte_at(path@, 0) {
                            lemma_parse_rest_single_byte(route.paths()[i as int], path@);
                        } else {
                            assert(route.paths()[i as int].len() == 0);
                            assert(path@.subrange(0, path@.len() as int) =~= path@);
                        }
                    }
                    let RouteParseResult { matched, remainder, params: bound } = res;
                    let differs = match node.matched {
                        None => true,
                        Some(m) => !str_eq(m.as_str(), matched),
                    };
                    if differs {
                        params.extend(bound);
                        let ghost old_updates = updates@;
                        updates.push(RouteUpdate { node: c, route: i, matched: matched.to_owned() });
                        assert(updates_view(updates@) =~= updates_view(old_updates).push(
                            updates@.last()@,
                        ));
                    }
                    remainder
                },
            }
        },
    }
}

/// The walk over the children of node `p`, carried out.
fn walk_node<'r, 'p, E>(
    t: &RouteTree<'r, E>,
    p: usize,
    path: &'p str,
    params: &mut RouteParams,
    updates: &mut Vec<RouteUpdate>,
) -> (rest: &'p str)
    requires
        t.wf(),
        p < t.nodes@.len(),
        single_byte_at(path@, 0) || children_read_nothing(
            t,
            p as int,
            t.nodes@[p as int].children@.len() as int,
        ),
        valid_updates(t, updates_view(old(updates)@)),
    ensures
        single_byte_at(path@, 0) ==> single_byte_at(rest@, 0),
        !single_byte_at(path@, 0) ==> rest@ == path@,
        valid_updates(t, updates_view(final(updates)@)),
        state_of(rest@, final(updates)@, final(params)@) == walk_children(
            t,
            p as int,
            t.nodes@[p as int].children@.len() as int,
            state_of(path@, old(updates)@, old(params)@),
        ),
    decreases t.nodes@.len() - p,
{
    let ghost st0 = state_of(path@, updates@, params@);
    let n = t.nodes[p].children.len();
    let mut k: usize = 0;
    let mut cur = path;
    while k < n
        invariant
            t.wf(),
            p < t.nodes@.len(),
            n == t.nodes@[p as int].children@.len(),
            k <= n,
            single_byte_at(path@, 0) ==> single_byte_at(cur@, 0),
            !single_byte_at(path@, 0) ==> cur@ == path@ && children_read_nothing(t, p as int, n as int),
            valid_updates(t, updates_view(updates@)),
            state_of(cur@, updates@, params@) == walk_children(t, p as int, k as int, st0),
        decreases n - k,
    {
        let c = t.nodes[p].children[k];
        assert(p < c < t.nodes@.len());
        let ghost before = state_of(cur@, updates@, params@);
        proof {
            if !single_byte_at(path@, 0) {
                lemma_children_read_nothing(t, p as int, n as int, k as int);
            }
        }
        let after_step = step_node(t, c, cur, params, updates);
        cur = walk_node(t, c, after_step, params, updates);
        assert(visit(t, c as int, before) == walk_children(
            t,
            c as int,
            t.nodes@[c as int].children@.len() as int,
            step(t, c as int, before),
        ));
        assert(walk_children(t, p as int, k + 1, st0) == visit(t, c as int, before));
        k = k + 1;
    }
    cur
}

/// Resolves the routes of the tree below node `root` against `pathname`.
///
/// The walk visits the children of each node in order, depth first, and threads the path
/// through: a node with routes takes the route chosen for the path left (see
/// [`Route::best_match`]) and the path moves past what that route matched. A node that does
/// not already show a route matched by the same text gets an update, in the order of the walk,
/// and the route's parameters are bound; `route_params` is cleared first.
pub fn resolve_routes<'r, E>(
    tree: &RouteTree<'r, E>,
    root: usize,
    pathname: &str,
    route_params: &mut RouteParams,
) -> (updates: Vec<RouteUpdate>)
    requires
        tree.wf(),
        root < tree.nodes@.len(),
        resolvable(tree, root as int, pathname@),
    ensures
        ({
            let end = walk_children(
                tree,
                root as int,
                tree.nodes@[root as int].children@.len() as int,
                WalkState { path: pathname@, updates: Seq::empty(), params: Map::empty() },
            );
            &&& updates_view(updates@) == end.updates
            &&& final(route_params)@ == end.params
        }),
        final(route_params)@ == merged_bindings(tree, updates_view(updates@)),
        valid_updates(tree, updates_view(updates@)),
{
    route_params.clear();
    let mut updates: Vec<RouteUpdate> = Vec::new();
    assert(updates_view(updates@) =~= Seq::<UpdateView>::empty());
    let _rest = walk_node(tree, root, pathname, route_params, &mut updates);
    proof {
        law_resolved_params(tree, root as int, pathname@);
    }
    updates
}

} // verus!
