//! Matching a URL path against a route pattern.
use vstd::prelude::*;
use bevy_platform::collections::HashMap;
use crate::params::{map_contents, map_insert, map_new};
use crate::path::{is_root_pattern, PathSegment, RouterPath, SegmentView};
use crate::split::{segments_from, TrackedSplit};
use crate::text::{find_slash, lemma_find_slash, single_byte_at, slice, str_eq};

verus! {

/// Why a path does not match a pattern.
#[derive(Debug, Clone, Copy, PartialEq, Eq, Structural)]
pub enum PathMatchError {
    /// The path ran out before the pattern did.
    UnexpectedPathEnd,
    /// The pattern holds a root segment where a path segment was expected.
    UnexpectedRoot,
    /// A literal segment of the pattern differs from the path.
    StaticMismatch,
}

impl PathMatchError {
    /// A description of the error.
    pub fn message(&self) -> (r: &'static str)
        ensures
            *self is UnexpectedPathEnd ==> r@ == "unexpected path end"@,
            *self is UnexpectedRoot ==> r@ == "unexpected root"@,
            *self is StaticMismatch ==> r@ == "failed to match static path segment"@,
    {
        match self {
            PathMatchError::UnexpectedPathEnd => "unexpected path end",
            PathMatchError::UnexpectedRoot => "unexpected root",
            PathMatchError::StaticMismatch => "failed to match static path segment",
        }
    }
}

/// Parameters bound by a match, by name.
pub type ParamMap = Map<Seq<char>, Seq<char>>;

/// Matches the segments of `pat` one after the other against `s`: each takes the text after
/// the current position's character up to the next `'/'`. Gives the number of characters
/// consumed and the parameters bound, later bindings of a name overriding earlier ones.
pub open spec fn parse_prefix(pat: Seq<SegmentView>, s: Seq<char>) -> Result<
    (int, ParamMap),
    PathMatchError,
>
    decreases pat.len(),
{
    if pat.len() == 0 {
        Ok((0, Map::empty()))
    } else {
        match parse_prefix(pat.drop_last(), s) {
            Err(e) => Err(e),
            Ok((pos, params)) => {
                if pos >= s.len() {
                    Err(PathMatchError::UnexpectedPathEnd)
                } else {
                    let stop = find_slash(s, pos + 1);
                    let input = s.subrange(pos + 1, stop);
                    match pat.last() {
                        SegmentView::Root => Err(PathMatchError::UnexpectedRoot),
                        SegmentView::Static(t) => {
                            if t == input {
                                Ok((stop, params))
                            } else {
                                Err(PathMatchError::StaticMismatch)
                            }
                        },
                        SegmentView::Param(name) => Ok((stop, params.insert(name, input))),
                    }
                }
            },
        }
    }
}

/// The match of path `s` against pattern `pat`: the root pattern takes the path `/` whole;
/// otherwise the segments are matched in turn.
pub open spec fn parse_spec(pat: Seq<SegmentView>, s: Seq<char>) -> Result<
    (int, ParamMap),
    PathMatchError,
> {
    if s == seq!['/'] && is_root_pattern(pat) {
        Ok((1, Map::empty()))
    } else {
        parse_prefix(pat, s)
    }
}

/// Matching `s` against `pat` reads on from the first character of `s` only when that
/// character takes a single byte (segments are cut at byte offsets).
pub open spec fn parse_safe(pat: Seq<SegmentView>, s: Seq<char>) -> bool {
    pat.len() > 0 ==> single_byte_at(s, 0)
}

/// A successful match: what it consumed, what is left, and the parameters it bound.
#[derive(Debug, PartialEq)]
pub struct RouteParseResult<'a> {
    pub matched: &'a str,
    pub remainder: &'a str,
    pub params: HashMap<String, String>,
}

/// `res` is the result that consuming `pos` characters of `s` and binding `params` gives.
pub open spec fn describes(res: &RouteParseResult, s: Seq<char>, pos: int, params: ParamMap) -> bool {
    &&& res.matched@ == s.subrange(0, pos)
    &&& res.remainder@ == s.subrange(pos, s.len() as int)
    &&& map_contents(res.params) == params
}

/// The position of a successful partial match lies within the path.
pub proof fn lemma_parse_prefix_bounds(pat: Seq<SegmentView>, s: Seq<char>)
    ensures
        parse_prefix(pat, s) matches Ok((pos, _)) ==> 0 <= pos <= s.len(),
        pat.len() > 0 ==> (parse_prefix(pat, s) matches Ok((pos, _)) ==> pos > 0),
    decreases pat.len(),
{
    if pat.len() > 0 {
        lemma_parse_prefix_bounds(pat.drop_last(), s);
        if let Ok((pos, _)) = parse_prefix(pat.drop_last(), s) {
            if pos < s.len() {
                lemma_find_slash(s, pos + 1);
            }
        }
    }
}

/// A successful partial match stops at the start of the path, at its end, or on a `'/'`.
pub proof fn lemma_parse_prefix_stop(pat: Seq<SegmentView>, s: Seq<char>)
    ensures
        parse_prefix(pat, s) matches Ok((pos, _)) ==> (pos == 0 || pos == s.len() || (0 <= pos
            < s.len() && s[pos] == '/')),
    decreases pat.len(),
{
    if pat.len() > 0 {
        lemma_parse_prefix_stop(pat.drop_last(), s);
        lemma_parse_prefix_bounds(pat.drop_last(), s);
        if let Ok((pos, _)) = parse_prefix(pat.drop_last(), s) {
            if pos < s.len() {
                lemma_find_slash(s, pos + 1);
            }
        }
    }
}

/// What is left after a successful match starts with a `'/'`, is empty, or is the whole
/// path; so a path whose first character takes one byte leaves a rest with the same property.
pub proof fn lemma_parse_rest_single_byte(pat: Seq<SegmentView>, s: Seq<char>)
    requires
        single_byte_at(s, 0),
    ensures
        parse_spec(pat, s) matches Ok((pos, _)) ==> (0 <= pos <= s.len() && single_byte_at(
            s.subrange(pos, s.len() as int),
            0,
        )),
{
    lemma_parse_prefix_stop(pat, s);
    lemma_parse_prefix_bounds(pat, s);
    if let Ok((pos, _)) = parse_spec(pat, s) {
        let rest = s.subrange(pos, s.len() as int);
        if 0 < pos < s.len() {
            assert(rest[0] == '/');
        }
        if pos == 0 {
            assert(rest =~= s);
        }
    }
}

/// What a match consumed followed by what it left is the whole path.
pub proof fn law_match_splits_path(pat: Seq<SegmentView>, s: Seq<char>)
    requires
        parse_spec(pat, s) is Ok,
    ensures
        ({
            let pos = parse_spec(pat, s)->Ok_0.0;
            &&& 0 <= pos <= s.len()
            &&& s.subrange(0, pos) + s.subrange(pos, s.len() as int) == s
        }),
{
    lemma_parse_prefix_bounds(pat, s);
    let pos = parse_spec(pat, s)->Ok_0.0;
    assert(s.subrange(0, pos) + s.subrange(pos, s.len() as int) =~= s);
}

/// Two texts that agree up to `j` find the same `'/'` from `i` on, when the first finds it
/// at `j` and the second has a `'/'` or its end there.
proof fn lemma_find_slash_agree(s1: Seq<char>, s2: Seq<char>, i: int, j: int)
    requires
        0 <= i <= j,
        j <= s1.len(),
        j <= s2.len(),
        forall|k: int| i <= k < j ==> s1[k] == s2[k],
        find_slash(s1, i) == j,
        j == s2.len() || s2[j] == '/',
    ensures
        find_slash(s2, i) == j,
    decreases j - i,
{
    lemma_find_slash(s1, i);
    if i < j {
        assert(s1[i] != '/');
        lemma_find_slash_agree(s1, s2, i + 1, j);
    }
}

/// A partial match reads nothing at or beyond position `p`, where the text has a `'/'` or
/// its end; so a text that agrees up to `p` and has a `'/'` or its end there matches alike.
proof fn lemma_parse_prefix_agree(pat: Seq<SegmentView>, s: Seq<char>, s2: Seq<char>, p: int)
    requires
        parse_prefix(pat, s) matches Ok((q, _)) && q <= p,
        p <= s.len(),
        p <= s2.len(),
        forall|k: int| 0 <= k < p ==> s[k] == s2[k],
        p == s2.len() || s2[p] == '/',
    ensures
        parse_prefix(pat, s2) == parse_prefix(pat, s),
    decreases pat.len(),
{
    if pat.len() > 0 {
        let prev = pat.drop_last();
        lemma_parse_prefix_bounds(prev, s);
        let (q0, ps0) = parse_prefix(prev, s)->Ok_0;
        let q = parse_prefix(pat, s)->Ok_0.0;
        lemma_find_slash(s, q0 + 1);
        lemma_parse_prefix_agree(prev, s, s2, p);
        lemma_find_slash_agree(s, s2, q0 + 1, q);
        assert(s2.subrange(q0 + 1, q) =~= s.subrange(q0 + 1, q));
    }
}

/// A match of a pattern other than the root depends only on what it consumed: followed by
/// any text that is empty or starts with `'/'` instead of the rest, the consumed part matches
/// the same way, and the new text becomes the rest.
pub proof fn law_match_ignores_rest(pat: Seq<SegmentView>, s: Seq<char>, t: Seq<char>)
    requires
        !is_root_pattern(pat),
        parse_spec(pat, s) is Ok,
        t.len() == 0 || t[0] == '/',
    ensures
        ({
            let pos = parse_spec(pat, s)->Ok_0.0;
            let s2 = s.subrange(0, pos) + t;
            &&& parse_spec(pat, s2) == parse_spec(pat, s)
            &&& s2.subrange(0, pos) == s.subrange(0, pos)
            &&& s2.subrange(pos, s2.len() as int) == t
        }),
{
    lemma_parse_prefix_bounds(pat, s);
    let pos = parse_spec(pat, s)->Ok_0.0;
    let s2 = s.subrange(0, pos) + t;
    if t.len() > 0 {
        assert(s2[pos] == t[0]);
    }
    lemma_parse_prefix_agree(pat, s, s2, pos);
    assert(s2.subrange(0, pos) =~= s.subrange(0, pos));
    assert(s2.subrange(pos, s2.len() as int) =~= t);
}

/// Pattern segments before position `k` read path segments: none is a root segment, `k`
/// segments were there to read, and every literal equals the path segment it was read against.
pub open spec fn fits_before(pat: Seq<SegmentView>, segs: Seq<Seq<char>>, k: int) -> bool {
    &&& k <= segs.len()
    &&& forall|j: int|
        0 <= j < k ==> !(#[trigger] pat[j] is Root) && (pat[j] matches SegmentView::Static(t)
            ==> t == segs[j])
}

/// Pattern segment `k` is where reading the path segments `segs` fails, with error `e`.
pub open spec fn fails_at(pat: Seq<SegmentView>, segs: Seq<Seq<char>>, k: int, e: PathMatchError) -> bool {
    ||| k == segs.len() && e == PathMatchError::UnexpectedPathEnd
    ||| k < segs.len() && pat[k] is Root && e == PathMatchError::UnexpectedRoot
    ||| k < segs.len() && (pat[k] matches SegmentView::Static(t) && t != segs[k])
        && e == PathMatchError::StaticMismatch
}

/// Pattern segment `k` is the parameter `n`, and no later segment is.
pub open spec fn last_binding(pat: Seq<SegmentView>, k: int, n: Seq<char>) -> bool {
    &&& 0 <= k < pat.len()
    &&& pat[k] == SegmentView::Param(n)
    &&& forall|j: int| k < j < pat.len() ==> pat[j] != SegmentView::Param(n)
}

/// Partial matches read the path segment by segment, as the splitter reads them.
proof fn lemma_parse_prefix_segments(pat: Seq<SegmentView>, s: Seq<char>)
    ensures
        ({
            let segs = segments_from(s, 0);
            match parse_prefix(pat, s) {
                Ok((q, ps)) => {
                    &&& 0 <= q <= s.len()
                    &&& segs.len() >= pat.len()
                    &&& segs.subrange(pat.len() as int, segs.len() as int) == segments_from(s, q)
                    &&& fits_before(pat, segs, pat.len() as int)
                    &&& forall|k: int, n: Seq<char>|
                        #[trigger] last_binding(pat, k, n) ==> ps.contains_key(n) && ps[n] == segs[k]
                    &&& forall|x: Seq<char>|
                        #[trigger] ps.contains_key(x) ==> exists|k: int|
                            0 <= k < pat.len() && pat[k] == SegmentView::Param(x)
                },
                Err(e) => exists|k: int|
                    0 <= k < pat.len() && fits_before(pat, segs, k) && fails_at(pat, segs, k, e),
            }
        }),
    decreases pat.len(),
{
    let segs = segments_from(s, 0);
    if pat.len() == 0 {
        assert(segs.subrange(0, segs.len() as int) =~= segs);
    } else {
        let prev = pat.drop_last();
        let l = prev.len() as int;
        lemma_parse_prefix_segments(prev, s);
        lemma_parse_prefix_bounds(prev, s);
        assert(forall|j: int| #![trigger pat[j]] 0 <= j < l ==> prev[j] == pat[j]);
        match parse_prefix(prev, s) {
            Err(e) => {
                let k = choose|k: int|
                    0 <= k < prev.len() && fits_before(prev, segs, k) && fails_at(prev, segs, k, e);
                assert(fits_before(pat, segs, k) && fails_at(pat, segs, k, e));
            },
            Ok((q0, ps0)) => {
                if q0 >= s.len() {
                    assert(segments_from(s, q0) =~= Seq::<Seq<char>>::empty());
                    assert(segs.len() == l);
                    assert(fits_before(pat, segs, l));
                    assert(fails_at(pat, segs, l, PathMatchError::UnexpectedPathEnd));
                } else {
                    let stop = find_slash(s, q0 + 1);
                    let input = s.subrange(q0 + 1, stop);
                    lemma_find_slash(s, q0 + 1);
                    let rest = segments_from(s, q0);
                    assert(rest == seq![input] + segments_from(s, stop));
                    assert(segs.subrange(l, segs.len() as int) == rest);
                    assert(segs[l] == rest[0]);
                    assert(segs.subrange(l + 1, segs.len() as int) =~= rest.subrange(
                        1,
                        rest.len() as int,
                    ));
                    assert(rest.subrange(1, rest.len() as int) =~= segments_from(s, stop));
                    assert(fits_before(pat, segs, l));
                    match pat.last() {
                        SegmentView::Root => {
                            assert(pat[l] is Root);
                            assert(fails_at(pat, segs, l, PathMatchError::UnexpectedRoot));
                        },
                        SegmentView::Static(t) => {
                            if t != input {
                                assert(fails_at(pat, segs, l, PathMatchError::StaticMismatch));
                            } else {
                                assert(fits_before(pat, segs, pat.len() as int));
                                assert forall|k: int, n: Seq<char>|
                                    #[trigger] last_binding(pat, k, n) implies ps0.contains_key(n)
                                    && ps0[n] == segs[k] by {
                                    assert(k < l);
                                    assert forall|j: int| k < j < prev.len() implies prev[j]
                                        != SegmentView::Param(n) by {
                                        assert(prev[j] == pat[j]);
                                    }
                                    assert(last_binding(prev, k, n));
                                }
                                assert forall|x: Seq<char>| #[trigger]
                                    ps0.contains_key(x) implies exists|k: int|
                                    0 <= k < pat.len() && pat[k] == SegmentView::Param(x) by {
                                    let k = choose|k: int|
                                        0 <= k < prev.len() && prev[k] == SegmentView::Param(x);
                                    assert(pat[k] == SegmentView::Param(x));
                                }
                            }
                        },
                        SegmentView::Param(name) => {
                            let ps = ps0.insert(name, input);
                            assert(fits_before(pat, segs, pat.len() as int));
                            assert forall|k: int, n: Seq<char>|
                                #[trigger] last_binding(pat, k, n) implies ps.contains_key(n)
                                && ps[n] == segs[k] by {
                                if k < l {
                                    assert(pat[l] == SegmentView::Param(name));
                                    assert(n != name);
                                    assert forall|j: int| k < j < prev.len() implies prev[j]
                                        != SegmentView::Param(n) by {
                                        assert(prev[j] == pat[j]);
                                    }
                                    assert(last_binding(prev, k, n));
                                } else {
                                    assert(pat[k] == pat.last());
                                }
                            }
                            assert forall|x: Seq<char>| #[trigger]
                                ps.contains_key(x) implies exists|k: int|
                                0 <= k < pat.len() && pat[k] == SegmentView::Param(x) by {
                                if x == name {
                                    assert(pat[l] == SegmentView::Param(x));
                                } else {
                                    assert(ps0.contains_key(x));
                                    let k = choose|k: int|
                                        0 <= k < prev.len() && prev[k] == SegmentView::Param(x);
                                    assert(pat[k] == SegmentView::Param(x));
                                }
                            }
                        },
                    }
                }
            },
        }
    }
}

/// A match reads the path one segment per pattern segment, as [`TrackedSplit`] reads it (the
/// text after the character under the cursor, up to the next `'/'` or the end).
///
/// Apart from the root pattern on the path `/`, which matches it whole and binds nothing:
/// - a match succeeds exactly when the path has at least as many segments as the pattern, the
///   pattern has no root segment, and every literal equals the path segment read against it;
/// - on success, every parameter is bound, to the path segment read against its last
///   occurrence, no other name is bound, and the segments left are those of the rest;
/// - on failure, the error is that of the first pattern segment that cannot be read: the path
///   ran out, a root segment, or a literal that differs from its path segment.
pub proof fn law_match_reads_segments(pat: Seq<SegmentView>, s: Seq<char>)
    ensures
        is_root_pattern(pat) && s == seq!['/'] ==> parse_spec(pat, s) == Ok::<
            (int, ParamMap),
            PathMatchError,
        >((1, Map::empty())),
        !(is_root_pattern(pat) && s == seq!['/']) ==> ({
            let segs = segments_from(s, 0);
            &&& (segs.len() >= pat.len() && fits_before(pat, segs, pat.len() as int))
                <==> parse_spec(pat, s) is Ok
            &&& match parse_spec(pat, s) {
                Ok((q, ps)) => {
                    &&& 0 <= q <= s.len()
                    &&& segs.subrange(pat.len() as int, segs.len() as int) == segments_from(s, q)
                    &&& forall|k: int, n: Seq<char>|
                        #[trigger] last_binding(pat, k, n) ==> ps.contains_key(n) && ps[n]
                            == segs[k]
                    &&& forall|x: Seq<char>|
                        #[trigger] ps.contains_key(x) ==> exists|k: int|
                            0 <= k < pat.len() && pat[k] == SegmentView::Param(x)
                },
                Err(e) => exists|k: int|
                    0 <= k < pat.len() && fits_before(pat, segs, k) && fails_at(pat, segs, k, e),
            }
        }),
{
    lemma_parse_prefix_segments(pat, s);
    let segs = segments_from(s, 0);
    if !(is_root_pattern(pat) && s == seq!['/']) {
        if let Err(e) = parse_spec(pat, s) {
            if segs.len() >= pat.len() && fits_before(pat, segs, pat.len() as int) {
                let k = choose|k: int|
                    0 <= k < pat.len() && fits_before(pat, segs, k) && fails_at(pat, segs, k, e);
                assert(!(pat[k] is Root));
            }
        }
    }
}

/// Once a prefix of the pattern fails to match, the whole pattern fails the same way.
pub proof fn lemma_parse_prefix_err(pat: Seq<SegmentView>, s: Seq<char>, k: int)
    requires
        0 <= k <= pat.len(),
        parse_prefix(pat.take(k), s) is Err,
    ensures
        parse_prefix(pat, s) == parse_prefix(pat.take(k), s),
    decreases pat.len() - k,
{
    if k == pat.len() {
        assert(pat.take(k) =~= pat);
    } else {
        assert(pat.take(k + 1).drop_last() =~= pat.take(k));
        lemma_parse_prefix_err(pat, s, k + 1);
    }
}

impl RouterPath {
    /// Matches `url` against the pattern: gives the part it consumed, the part left over and
    /// the parameters it bound, or why it does not match.
    pub fn parse_path<'a>(&self, url: &'a str) -> (r: Result<RouteParseResult<'a>, PathMatchError>)
        requires
            parse_safe(self@, url@),
        ensures
            match parse_spec(self@, url@) {
                Ok((pos, params)) => r matches Ok(res) && describes(&res, url@, pos, params),
                Err(e) => r == Err::<RouteParseResult<'a>, PathMatchError>(e),
            },
    {
        proof {
            reveal_strlit("/");
            assert("/"@ =~= seq!['/']);
        }
        let is_slash = str_eq(url, "/");
        if is_slash && self.is_root() {
            assert(url@ =~= seq!['/']);
            let params = map_new();
            let res = RouteParseResult { matched: slice(url, 0, 1), remainder: slice(url, 1, 1), params };
            return Ok(res);
        }
        assert(!(url@ == seq!['/'] && is_root_pattern(self@)));
        let ghost pat = self@;
        let ghost s = url@;
        let mut params = map_new();
        let mut split = TrackedSplit::new(url);
        let mut k: usize = 0;
        assert(pat.take(0) =~= Seq::<SegmentView>::empty());
        while k < self.0.len()
            invariant
                pat == self@,
                s == url@,
                parse_safe(pat, s),
                !(s == seq!['/'] && is_root_pattern(pat)),
                k <= self.0.len(),
                split.wf(),
                split.text() == s,
                0 <= split.cursor() <= s.len(),
                split.cursor() == 0 || split.cursor() == s.len() || s[split.cursor()] == '/',
                parse_prefix(pat.take(k as int), s) == Ok::<(int, ParamMap), PathMatchError>(
                    (split.cursor(), map_contents(params)),
                ),
            decreases self.0.len() - k,
        {
            assert(pat.take(k + 1).drop_last() =~= pat.take(k as int));
            assert(pat.take(k + 1).last() == pat[k as int]);
            assert(self.0@[k as int]@ == pat[k as int]);
            let ghost c0 = split.cursor();
            let next = split.next();
            let input = match next {
                None => {
                    proof {
                        lemma_parse_prefix_err(pat, s, k + 1);
                    }
                    return Err(PathMatchError::UnexpectedPathEnd);
                },
                Some(x) => x,
            };
            proof {
                lemma_find_slash(s, c0 + 1);
            }
            match &self.0[k] {
                PathSegment::Root => {
                    proof {
                        lemma_parse_prefix_err(pat, s, k + 1);
                    }
                    return Err(PathMatchError::UnexpectedRoot);
                },
                PathSegment::Static(seg) => {
                    if !str_eq(*seg, input) {
                        proof {
                            lemma_parse_prefix_err(pat, s, k + 1);
                        }
                        return Err(PathMatchError::StaticMismatch);
                    }
                },
                PathSegment::Param(name) => {
                    map_insert(&mut params, (*name).to_owned(), input.to_owned());
                },
            }
            k = k + 1;
        }
        assert(pat.take(k as int) =~= pat);
        let res = RouteParseResult {
            matched: split.consumed(),
            remainder: split.remainder(),
            params,
        };
        Ok(res)
    }
}

} // verus!
