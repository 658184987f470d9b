//! Route patterns: `/static/:param` strings parsed into segments.
use vstd::prelude::*;
use crate::split::{lemma_find_slash_shift, split_on_slash};
use crate::text::{chars_of, find_slash, lemma_find_slash, next_slash, slice};
use vstd::string::*;

verus! {

/// One segment of a route pattern.
#[derive(Debug, PartialEq, Eq)]
pub enum PathSegment {
    /// The pattern `/` itself.
    Root,
    /// A segment that must appear literally.
    Static(&'static str),
    /// A segment that matches anything and binds it to the given name.
    Param(&'static str),
}

/// The mathematical content of a [`PathSegment`].
pub enum SegmentView {
    Root,
    Static(Seq<char>),
    Param(Seq<char>),
}

impl View for PathSegment {
    type V = SegmentView;

    open spec fn view(&self) -> SegmentView {
        match self {
            PathSegment::Root => SegmentView::Root,
            PathSegment::Static(s) => SegmentView::Static(s@),
            PathSegment::Param(s) => SegmentView::Param(s@),
        }
    }
}

/// The segment that a non-empty piece of a pattern stands for: a parameter when it starts
/// with `':'` (named by the rest of the piece), a literal otherwise.
pub open spec fn segment_of(piece: Seq<char>) -> SegmentView {
    if piece.len() > 0 && piece[0] == ':' {
        SegmentView::Param(piece.drop_first())
    } else {
        SegmentView::Static(piece)
    }
}

/// The non-empty runs of characters between the `'/'`s of `s`, from position `start` on.
pub open spec fn pieces_from(s: Seq<char>, start: int) -> Seq<Seq<char>>
    decreases s.len() + 1 - start,
{
    if start < 0 || start > s.len() {
        seq![]
    } else {
        let e = find_slash(s, start);
        proof {
            lemma_find_slash(s, start);
        }
        let piece = s.subrange(start, e);
        let rest = if e < s.len() {
            pieces_from(s, e + 1)
        } else {
            Seq::<Seq<char>>::empty()
        };
        if piece.len() > 0 {
            seq![piece] + rest
        } else {
            rest
        }
    }
}

/// The segments of a pattern that is neither empty nor `/`.
pub open spec fn pattern_segments(s: Seq<char>) -> Seq<SegmentView> {
    pieces_from(s, 0).map_values(|p: Seq<char>| segment_of(p))
}

/// The pattern that a route string stands for, or `None` when the string is empty.
pub open spec fn pattern_of(s: Seq<char>) -> Option<Seq<SegmentView>> {
    if s.len() == 0 {
        None
    } else if s == seq!['/'] {
        Some(seq![SegmentView::Root])
    } else {
        Some(pattern_segments(s))
    }
}

/// The error of [`RouterPath::from_static`] on an empty route string.
#[derive(Debug)]
pub struct PathSegmentError;

/// A parsed route pattern.
#[derive(Debug, PartialEq, Eq)]
pub struct RouterPath(pub Vec<PathSegment>);

impl View for RouterPath {
    type V = Seq<SegmentView>;

    open spec fn view(&self) -> Seq<SegmentView> {
        self.0@.map_values(|s: PathSegment| s@)
    }
}

/// The pattern is exactly `/`.
pub open spec fn is_root_pattern(p: Seq<SegmentView>) -> bool {
    p.len() == 1 && p[0] is Root
}

/// The pattern has no root segment.
pub open spec fn root_free(p: Seq<SegmentView>) -> bool {
    forall|i: int| 0 <= i < p.len() ==> !(#[trigger] p[i] is Root)
}

/// A pattern that a route string can stand for: the root pattern, or one with no root segment.
pub open spec fn route_pattern(p: Seq<SegmentView>) -> bool {
    is_root_pattern(p) || root_free(p)
}

/// A route string stands for the root pattern when it is `/`, and otherwise for a pattern
/// with no root segment.
pub proof fn law_parsed_pattern_shape(s: Seq<char>)
    requires
        pattern_of(s) is Some,
    ensures
        s == seq!['/'] ==> is_root_pattern(pattern_of(s).unwrap()),
        s != seq!['/'] ==> root_free(pattern_of(s).unwrap()),
        route_pattern(pattern_of(s).unwrap()),
{
    if s != seq!['/'] {
        let p = pattern_of(s).unwrap();
        assert forall|i: int| 0 <= i < p.len() implies !(#[trigger] p[i] is Root) by {
            let piece = pieces_from(s, 0)[i];
            assert(p[i] == segment_of(piece));
        }
    }
}

/// A route string is refused exactly when it is empty, and `/` stands for the root pattern
/// alone.
pub proof fn law_route_string_refused_only_when_empty(s: Seq<char>)
    ensures
        pattern_of(s) is None <==> s.len() == 0,
        s == seq!['/'] ==> pattern_of(s) == Some(seq![SegmentView::Root]),
{
}

/// The non-empty pieces among `parts`, in order.
pub open spec fn nonempty_pieces(parts: Seq<Seq<char>>) -> Seq<Seq<char>>
    decreases parts.len(),
{
    if parts.len() == 0 {
        seq![]
    } else {
        (if parts[0].len() > 0 {
            seq![parts[0]]
        } else {
            Seq::<Seq<char>>::empty()
        }) + nonempty_pieces(parts.drop_first())
    }
}

/// From `start` on, the pieces of a pattern are the non-empty pieces between its `'/'`s.
proof fn lemma_pieces_are_nonempty_split(s: Seq<char>, start: int)
    requires
        0 <= start <= s.len(),
    ensures
        pieces_from(s, start) == nonempty_pieces(split_on_slash(s.subrange(start, s.len() as int))),
    decreases s.len() - start,
{
    let u = s.subrange(start, s.len() as int);
    lemma_find_slash_shift(s, start, 0);
    lemma_find_slash(s, start);
    lemma_find_slash(u, 0);
    let e = find_slash(s, start);
    let eu = find_slash(u, 0);
    assert(e == start + eu);
    assert(u.subrange(0, eu) =~= s.subrange(start, e));
    let parts = split_on_slash(u);
    if e < s.len() {
        lemma_pieces_are_nonempty_split(s, e + 1);
        assert(u.subrange(eu + 1, u.len() as int) =~= s.subrange(e + 1, s.len() as int));
        assert(parts[0] == s.subrange(start, e));
        assert(parts.drop_first() =~= split_on_slash(s.subrange(e + 1, s.len() as int)));
    } else {
        assert(u.subrange(0, eu) =~= u);
        assert(parts =~= seq![u]);
        assert(parts.drop_first() =~= Seq::<Seq<char>>::empty());
        assert(nonempty_pieces(Seq::<Seq<char>>::empty()) =~= Seq::<Seq<char>>::empty());
        if u.len() > 0 {
            assert(seq![u] + Seq::<Seq<char>>::empty() =~= seq![u]);
        }
    }
}

/// A route string other than `/` stands for one segment per non-empty piece between its
/// `'/'`s, in order: a piece that starts with `':'` is a parameter named by the rest of the
/// piece, any other piece is a literal equal to the piece.
pub proof fn law_pattern_pieces(s: Seq<char>)
    requires
        s.len() > 0,
        s != seq!['/'],
    ensures
        ({
            let pieces = nonempty_pieces(split_on_slash(s));
            let p = pattern_of(s).unwrap();
            &&& pattern_of(s) is Some
            &&& p.len() == pieces.len()
            &&& forall|k: int|
                0 <= k < p.len() ==> (#[trigger] pieces[k]).len() > 0 && (pieces[k][0] == ':'
                    ==> p[k] == SegmentView::Param(pieces[k].drop_first())) && (pieces[k][0]
                    != ':' ==> p[k] == SegmentView::Static(pieces[k]))
        }),
{
    lemma_pieces_are_nonempty_split(s, 0);
    assert(s.subrange(0, s.len() as int) =~= s);
    lemma_nonempty_pieces_nonempty(split_on_slash(s));
}

/// The pieces that `nonempty_pieces` keeps are non-empty.
proof fn lemma_nonempty_pieces_nonempty(parts: Seq<Seq<char>>)
    ensures
        forall|k: int|
            0 <= k < nonempty_pieces(parts).len() ==> (#[trigger] nonempty_pieces(parts)[k]).len()
                > 0,
    decreases parts.len(),
{
    if parts.len() > 0 {
        lemma_nonempty_pieces_nonempty(parts.drop_first());
        let head = if parts[0].len() > 0 {
            seq![parts[0]]
        } else {
            Seq::<Seq<char>>::empty()
        };
        let rest = nonempty_pieces(parts.drop_first());
        assert forall|k: int|
            0 <= k < nonempty_pieces(parts).len() implies (#[trigger] nonempty_pieces(
            parts,
        )[k]).len() > 0 by {
            if k >= head.len() {
                assert(nonempty_pieces(parts)[k] == rest[k - head.len()]);
            }
        }
    }
}

impl PathSegment {
    /// The segment for one non-empty piece of a route string.
    pub fn from_static(segment: &'static str) -> (r: Self)
        ensures
            r@ == segment_of(segment@),
    {
        let n = segment.unicode_len();
        if n > 0 && segment.get_char(0) == ':' {
            let end = slice(segment, 1, n);
            assert(end@ =~= segment@.drop_first());
            PathSegment::Param(end)
        } else {
            PathSegment::Static(segment)
        }
    }
}

impl RouterPath {
    /// Parses a route string: `/` is the root pattern; otherwise each non-empty run between
    /// `'/'`s is a segment, a parameter when it starts with `':'`. An empty string is refused.
    pub fn from_static(path: &'static str) -> (r: Result<Self, PathSegmentError>)
        ensures
            match pattern_of(path@) {
                None => r is Err,
                Some(p) => r matches Ok(rp) && rp@ == p,
            },
    {
        let chars = chars_of(path);
        let n = chars.len();
        if n == 0 {
            return Err(PathSegmentError);
        }
        if n == 1 && chars[0] == '/' {
            let r = RouterPath(vec![PathSegment::Root]);
            assert(path@ =~= seq!['/']);
            assert(r@ =~= seq![SegmentView::Root]);
            return Ok(r);
        }
        assert(path@ != seq!['/']) by {
            if path@ == seq!['/'] {
                assert(chars@[0] == '/');
            }
        }
        let ghost s = path@;
        let ghost mut done: Seq<Seq<char>> = seq![];
        let mut segments: Vec<PathSegment> = Vec::new();
        let mut start: usize = 0;
        let mut more = true;
        while more
            invariant
                chars@ == s,
                s == path@,
                n == s.len(),
                more ==> start <= n,
                done + (if more { pieces_from(s, start as int) } else { seq![] }) == pieces_from(s, 0),
                segments@.len() == done.len(),
                forall|i: int| 0 <= i < done.len() ==> #[trigger] segments@[i]@ == segment_of(done[i]),
            decreases (if more { n + 1 - start } else { 0 }),
        {
            let e = next_slash(&chars, start);
            proof {
                lemma_find_slash(s, start as int);
            }
            let ghost piece = s.subrange(start as int, e as int);
            let ghost rest = if e < n {
                pieces_from(s, e + 1)
            } else {
                Seq::<Seq<char>>::empty()
            };
            assert(pieces_from(s, start as int) == if piece.len() > 0 {
                seq![piece] + rest
            } else {
                rest
            });
            if e > start {
                let p = slice(path, start, e);
                let seg = PathSegment::from_static(p);
                segments.push(seg);
                proof {
                    assert(done.push(piece) + rest =~= done + (seq![piece] + rest));
                    done = done.push(piece);
                }
            }
            if e == n {
                more = false;
                assert(done + Seq::<Seq<char>>::empty() =~= done);
            } else {
                start = e + 1;
            }
        }
        let r = RouterPath(segments);
        proof {
            assert(done + Seq::<Seq<char>>::empty() =~= done);
            assert(r@ =~= pattern_segments(s));
        }
        Ok(r)
    }

    /// The number of segments of the pattern.
    pub fn len(&self) -> (r: usize)
        ensures
            r == self@.len(),
    {
        self.0.len()
    }

    /// Whether the pattern is exactly `/`.
    pub fn is_root(&self) -> (r: bool)
        ensures
            r == is_root_pattern(self@),
    {
        self.0.len() == 1 && match &self.0[0] {
            PathSegment::Root => true,
            _ => false,
        }
    }
}

} // verus!
