//! A set of alternative routes and the choice among them for a given path.
use vstd::prelude::*;
use crate::parse::{describes, parse_safe, parse_spec, RouteParseResult};
use crate::path::{law_parsed_pattern_shape, pattern_of, route_pattern, RouterPath, SegmentView};
use crate::specificity::{law_more_specific_irreflexive, law_more_specific_transitive, more_specific};

verus! {

/// Pattern `p` matches path `s`.
pub open spec fn matches_path(p: Seq<SegmentView>, s: Seq<char>) -> bool {
    parse_spec(p, s) is Ok
}

/// Route `i` matches `s` and no route that matches `s` is strictly more specific.
pub open spec fn is_best(paths: Seq<Seq<SegmentView>>, s: Seq<char>, i: int) -> bool {
    &&& 0 <= i < paths.len()
    &&& matches_path(paths[i], s)
    &&& forall|j: int|
        0 <= j < paths.len() && #[trigger] matches_path(paths[j], s) ==> !more_specific(
            paths[j],
            paths[i],
        )
}

/// The first route, from position `i` on, that is best for `s`.
pub open spec fn first_best_from(paths: Seq<Seq<SegmentView>>, s: Seq<char>, i: int) -> Option<int>
    decreases paths.len() - i,
{
    if i < 0 || i >= paths.len() {
        None
    } else if is_best(paths, s, i) {
        Some(i)
    } else {
        first_best_from(paths, s, i + 1)
    }
}

/// The route chosen for `s`: among the routes that match it, the most specific one; among
/// equally specific ones, the one added first.
pub open spec fn best_route(paths: Seq<Seq<SegmentView>>, s: Seq<char>) -> Option<int> {
    first_best_from(paths, s, 0)
}

/// Every pattern is empty: none reads a segment.
pub open spec fn patterns_empty(paths: Seq<Seq<SegmentView>>) -> bool {
    forall|i: int| 0 <= i < paths.len() ==> (#[trigger] paths[i]).len() == 0
}

/// Matching `s` against each pattern can read on: either the first character of `s` takes a
/// single byte, or no pattern reads a segment.
pub open spec fn routes_safe(paths: Seq<Seq<SegmentView>>, s: Seq<char>) -> bool {
    forall|i: int| 0 <= i < paths.len() ==> parse_safe(#[trigger] paths[i], s)
}

/// Some route matches `s`.
pub open spec fn some_route_matches(paths: Seq<Seq<SegmentView>>, s: Seq<char>) -> bool {
    exists|j: int| 0 <= j < paths.len() && #[trigger] matches_path(paths[j], s)
}

/// Among the first `k` routes, if one matches `s`, one of them that matches is not outdone
/// by a more specific match among the first `k`.
proof fn lemma_maximal_among_prefix(paths: Seq<Seq<SegmentView>>, s: Seq<char>, k: int)
    requires
        forall|i: int| 0 <= i < paths.len() ==> route_pattern(#[trigger] paths[i]),
        0 <= k <= paths.len(),
        exists|j: int| 0 <= j < k && #[trigger] matches_path(paths[j], s),
    ensures
        exists|m: int|
            0 <= m < k && matches_path(paths[m], s) && forall|j: int|
                0 <= j < k && #[trigger] matches_path(paths[j], s) ==> !more_specific(
                    paths[j],
                    paths[m],
                ),
    decreases k,
{
    let last = k - 1;
    if exists|j: int| 0 <= j < last && #[trigger] matches_path(paths[j], s) {
        lemma_maximal_among_prefix(paths, s, last);
        let m = choose|m: int|
            0 <= m < last && matches_path(paths[m], s) && forall|j: int|
                0 <= j < last && #[trigger] matches_path(paths[j], s) ==> !more_specific(
                    paths[j],
                    paths[m],
                );
        if matches_path(paths[last], s) && more_specific(paths[last], paths[m]) {
            assert forall|j: int|
                0 <= j < k && #[trigger] matches_path(paths[j], s) implies !more_specific(
                paths[j],
                paths[last],
            ) by {
                if j == last {
                    law_more_specific_irreflexive(paths[j]);
                } else if more_specific(paths[j], paths[last]) {
                    law_more_specific_transitive(paths[j], paths[last], paths[m]);
                }
            }
        } else {
            assert forall|j: int|
                0 <= j < k && #[trigger] matches_path(paths[j], s) implies !more_specific(
                paths[j],
                paths[m],
            ) by {}
        }
    } else {
        assert(matches_path(paths[last], s));
        assert forall|j: int|
            0 <= j < k && #[trigger] matches_path(paths[j], s) implies !more_specific(
            paths[j],
            paths[last],
        ) by {
            law_more_specific_irreflexive(paths[j]);
        }
    }
}

/// The scan for the first best route finds one when there is one at or after its start.
proof fn lemma_first_best_found(paths: Seq<Seq<SegmentView>>, s: Seq<char>, i: int, m: int)
    requires
        0 <= i <= m,
        is_best(paths, s, m),
    ensures
        first_best_from(paths, s, i) is Some,
    decreases m - i,
{
    if !is_best(paths, s, i) {
        lemma_first_best_found(paths, s, i + 1, m);
    }
}

/// Among routes whose patterns route strings stand for, a route is chosen for every path
/// that some route matches.
pub proof fn law_best_route_exists(paths: Seq<Seq<SegmentView>>, s: Seq<char>)
    requires
        forall|i: int| 0 <= i < paths.len() ==> route_pattern(#[trigger] paths[i]),
        some_route_matches(paths, s),
    ensures
        best_route(paths, s) is Some,
{
    lemma_maximal_among_prefix(paths, s, paths.len() as int);
    let m = choose|m: int|
        0 <= m < paths.len() && matches_path(paths[m], s) && forall|j: int|
            0 <= j < paths.len() && #[trigger] matches_path(paths[j], s) ==> !more_specific(
                paths[j],
                paths[m],
            );
    assert(is_best(paths, s, m));
    lemma_first_best_found(paths, s, 0, m);
}

/// The chosen route matches, no route that matches is more specific, and every route added
/// before it either does not match or is outdone by a more specific match.
pub proof fn law_best_route_is_most_specific(paths: Seq<Seq<SegmentView>>, s: Seq<char>)
    requires
        best_route(paths, s) is Some,
    ensures
        ({
            let i = best_route(paths, s).unwrap();
            &&& 0 <= i < paths.len()
            &&& matches_path(paths[i], s)
            &&& forall|j: int|
                0 <= j < paths.len() && #[trigger] matches_path(paths[j], s) ==> !more_specific(
                    paths[j],
                    paths[i],
                )
            &&& forall|j: int|
                0 <= j < i && #[trigger] matches_path(paths[j], s) ==> exists|q: int|
                    0 <= q < paths.len() && matches_path(paths[q], s) && more_specific(
                        paths[q],
                        paths[j],
                    )
        }),
{
    lemma_first_best_is_best(paths, s, 0);
    lemma_first_best_is_first(paths, s, 0);
    let i = best_route(paths, s).unwrap();
    assert forall|j: int|
        0 <= j < i && #[trigger] matches_path(paths[j], s) implies exists|q: int|
        0 <= q < paths.len() && matches_path(paths[q], s) && more_specific(paths[q], paths[j]) by {
        assert(!is_best(paths, s, j));
    }
}

/// Routes skipped by the scan for the first best route are not best.
proof fn lemma_first_best_is_first(paths: Seq<Seq<SegmentView>>, s: Seq<char>, i: int)
    requires
        0 <= i,
    ensures
        first_best_from(paths, s, i) matches Some(m) ==> forall|j: int|
            i <= j < m ==> !is_best(paths, s, j),
        first_best_from(paths, s, i) is None ==> forall|j: int|
            i <= j < paths.len() ==> !is_best(paths, s, j),
    decreases paths.len() - i,
{
    if i < paths.len() && !is_best(paths, s, i) {
        lemma_first_best_is_first(paths, s, i + 1);
    }
}

/// Whatever the scan for the first best route finds is best.
proof fn lemma_first_best_is_best(paths: Seq<Seq<SegmentView>>, s: Seq<char>, i: int)
    ensures
        first_best_from(paths, s, i) matches Some(m) ==> is_best(paths, s, m),
    decreases paths.len() - i,
{
    if 0 <= i < paths.len() && !is_best(paths, s, i) {
        lemma_first_best_is_best(paths, s, i + 1);
    }
}

/// Alternative routes, each a pattern with the element to show when it is chosen.
pub struct Route<E> {
    routes: Vec<(RouterPath, E)>,
}

impl<E> Route<E> {
    /// The patterns, in the order they were added.
    pub closed spec fn paths(&self) -> Seq<Seq<SegmentView>> {
        self.routes@.map_values(|r: (RouterPath, E)| r.0@)
    }

    /// The elements, in the order they were added.
    pub closed spec fn elements(&self) -> Seq<E> {
        self.routes@.map_values(|r: (RouterPath, E)| r.1)
    }

    /// Every pattern is one that a route string stands for.
    #[verifier::type_invariant]
    closed spec fn inv(&self) -> bool {
        forall|i: int| 0 <= i < self.paths().len() ==> route_pattern(#[trigger] self.paths()[i])
    }

    /// There are as many patterns as elements.
    pub proof fn lemma_paths_elements_len(&self)
        ensures
            self.paths().len() == self.elements().len(),
    {
    }

    /// No routes.
    pub fn new() -> (r: Self)
        ensures
            r.paths() == Seq::<Seq<SegmentView>>::empty(),
            r.elements() == Seq::<E>::empty(),
    {
        let r = Route { routes: Vec::new() };
        assert(r.paths() =~= Seq::<Seq<SegmentView>>::empty());
        assert(r.elements() =~= Seq::<E>::empty());
        r
    }

    /// Adds a route: the pattern that `route` stands for, showing `element`.
    pub fn route(self, route: &'static str, element: E) -> (r: Self)
        requires
            route@.len() > 0,
        ensures
            r.paths() == self.paths().push(pattern_of(route@).unwrap()),
            r.elements() == self.elements().push(element),
    {
        proof {
            use_type_invariant(&self);
        }
        let ghost old_paths = self.paths();
        let ghost old_routes = self.routes@;
        let ghost old_elements = self.elements();
        match RouterPath::from_static(route) {
            Ok(path) => {
                proof {
                    law_parsed_pattern_shape(route@);
                }
                let Route { routes } = self;
                let mut routes = routes;
                routes.push((path, element));
                assert forall|i: int| 0 <= i < routes@.len() implies route_pattern(
                    #[trigger] routes@[i].0@,
                ) by {
                    if i < old_routes.len() {
                        assert(routes@[i] == old_routes[i]);
                        assert(old_paths[i] == old_routes[i].0@);
                    }
                }
                let r = Route { routes };
                assert(r.paths() =~= old_paths.push(pattern_of(route@).unwrap()));
                assert(r.elements() =~= old_elements.push(element));
                r
            },
            Err(_) => {
                assert(false);
                self
            },
        }
    }

    /// Whether no pattern of these routes reads a segment.
    pub fn has_only_empty_patterns(&self) -> (r: bool)
        ensures
            r == patterns_empty(self.paths()),
    {
        let n = self.routes.len();
        let mut k: usize = 0;
        while k < n
            invariant
                n == self.routes.len(),
                k <= n,
                forall|q: int| 0 <= q < k ==> (#[trigger] self.paths()[q]).len() == 0,
            decreases n - k,
        {
            assert(self.routes@[k as int].0@ == self.paths()[k as int]);
            if self.routes[k].0.len() != 0 {
                return false;
            }
            k = k + 1;
        }
        true
    }

    /// The element of route `index`.
    pub fn element(&self, index: usize) -> (r: &E)
        requires
            index < self.elements().len(),
        ensures
            *r == self.elements()[index as int],
    {
        &self.routes[index].1
    }

    /// The route chosen for `path`, with the result of matching it: among the routes whose
    /// pattern matches, the most specific; among equally specific ones, the one added first.
    pub fn best_match<'p>(&self, path: &'p str) -> (r: Option<(usize, RouteParseResult<'p>)>)
        requires
            routes_safe(self.paths(), path@),
        ensures
            match best_route(self.paths(), path@) {
                None => r is None,
                Some(i) => r matches Some((j, res)) && j == i && (parse_spec(
                    self.paths()[i],
                    path@,
                ) matches Ok((pos, params)) && describes(&res, path@, pos, params)),
            },
            some_route_matches(self.paths(), path@) ==> r is Some,
    {
        proof {
            use_type_invariant(self);
            if some_route_matches(self.paths(), path@) {
                law_best_route_exists(self.paths(), path@);
            }
        }
        let n = self.routes.len();
        let ghost paths = self.paths();
        let ghost s = path@;
        let mut oks: Vec<bool> = Vec::new();
        let mut k: usize = 0;
        while k < n
            invariant
                n == self.routes.len(),
                paths == self.paths(),
                s == path@,
                routes_safe(paths, s),
                k <= n,
                oks.len() == k,
                forall|q: int| 0 <= q < k ==> oks@[q] == matches_path(paths[q], s),
            decreases n - k,
        {
            assert(self.routes@[k as int].0@ == paths[k as int]);
            let ok = self.routes[k].0.parse_path(path).is_ok();
            oks.push(ok);
            k = k + 1;
        }
        let mut i: usize = 0;
        while i < n
            invariant
                n == self.routes.len(),
                paths == self.paths(),
                s == path@,
                routes_safe(paths, s),
                i <= n,
                oks.len() == n,
                forall|q: int| 0 <= q < n ==> oks@[q] == matches_path(paths[q], s),
                first_best_from(paths, s, i as int) == best_route(paths, s),
            decreases n - i,
        {
            if oks[i] {
                let mut best = true;
                let mut j: usize = 0;
                while j < n
                    invariant
                        n == self.routes.len(),
                        paths == self.paths(),
                        i < n,
                        j <= n,
                        oks.len() == n,
                        forall|q: int| 0 <= q < n ==> oks@[q] == matches_path(paths[q], s),
                        best == forall|q: int|
                            0 <= q < j && #[trigger] matches_path(paths[q], s) ==> !more_specific(
                                paths[q],
                                paths[i as int],
                            ),
                    decreases n - j,
                {
                    assert(self.routes@[j as int].0@ == paths[j as int]);
                    assert(self.routes@[i as int].0@ == paths[i as int]);
                    if oks[j] && self.routes[j].0.is_more_specific(&self.routes[i].0) {
                        best = false;
                    }
                    j = j + 1;
                }
                if best {
                    assert(is_best(paths, s, i as int));
                    assert(self.routes@[i as int].0@ == paths[i as int]);
                    match self.routes[i].0.parse_path(path) {
                        Ok(res) => {
                            return Some((i, res));
                        },
                        Err(_) => {
                            assert(false);
                            return None;
                        },
                    }
                }
            }
            i = i + 1;
        }
        None
    }
}

impl<E> Default for Route<E> {
    fn default() -> (r: Self)
        ensures
            r.paths() == Seq::<Seq<SegmentView>>::empty(),
            r.elements() == Seq::<E>::empty(),
    {
        Route::new()
    }
}

} // verus!
