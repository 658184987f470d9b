//! A splitter over a URL path that remembers how much of the path it has consumed.
use vstd::prelude::*;
use crate::text::{chars_of, find_slash, lemma_find_slash, next_slash, single_byte_at, slice};

verus! {

/// The segments that repeated calls of `next` read from `s` with the cursor at `c`.
pub open spec fn segments_from(s: Seq<char>, c: int) -> Seq<Seq<char>>
    decreases s.len() - c,
{
    if c < 0 || c >= s.len() {
        seq![]
    } else {
        let stop = find_slash(s, c + 1);
        proof {
            lemma_find_slash(s, c + 1);
        }
        seq![s.subrange(c + 1, stop)] + segments_from(s, stop)
    }
}

/// The pieces of `u` between its `'/'`s, empty pieces included: `a/b/` gives `a`, `b`, ``.
pub open spec fn split_on_slash(u: Seq<char>) -> Seq<Seq<char>>
    decreases u.len(),
{
    let e = find_slash(u, 0);
    proof {
        lemma_find_slash(u, 0);
    }
    if e >= u.len() {
        seq![u]
    } else {
        seq![u.subrange(0, e)] + split_on_slash(u.subrange(e + 1, u.len() as int))
    }
}

/// Pieces joined with `'/'` between them.
pub open spec fn join_with_slash(parts: Seq<Seq<char>>) -> Seq<char>
    decreases parts.len(),
{
    if parts.len() == 0 {
        seq![]
    } else if parts.len() == 1 {
        parts[0]
    } else {
        parts[0] + seq!['/'] + join_with_slash(parts.drop_first())
    }
}

/// Looking for a `'/'` in a suffix finds it at the same place, counted from the suffix.
pub proof fn lemma_find_slash_shift(s: Seq<char>, i: int, j: int)
    requires
        0 <= i <= s.len(),
        0 <= j <= s.len() - i,
    ensures
        find_slash(s, i + j) == i + find_slash(s.subrange(i, s.len() as int), j),
    decreases s.len() - i - j,
{
    if i + j < s.len() && s[i + j] != '/' {
        lemma_find_slash_shift(s, i, j + 1);
    }
}

/// From a cursor on a `'/'`, the segments read are the pieces of the rest between `'/'`s.
proof fn lemma_segments_split(s: Seq<char>, c: int)
    requires
        0 <= c < s.len(),
        s[c] == '/',
    ensures
        segments_from(s, c) == split_on_slash(s.subrange(c + 1, s.len() as int)),
    decreases s.len() - c,
{
    let u = s.subrange(c + 1, s.len() as int);
    lemma_find_slash_shift(s, c + 1, 0);
    lemma_find_slash(s, c + 1);
    lemma_find_slash(u, 0);
    let stop = find_slash(s, c + 1);
    let e = find_slash(u, 0);
    assert(stop == c + 1 + e);
    assert(u.subrange(0, e) =~= s.subrange(c + 1, stop));
    if stop < s.len() {
        lemma_segments_split(s, stop);
        assert(u.subrange(e + 1, u.len() as int) =~= s.subrange(stop + 1, s.len() as int));
    } else {
        assert(segments_from(s, stop) =~= Seq::<Seq<char>>::empty());
        assert(seq![s.subrange(c + 1, stop)] + Seq::<Seq<char>>::empty() =~= seq![u]);
    }
}

/// Splitting at every `'/'` and joining with `'/'` gives the text back.
proof fn lemma_join_split(u: Seq<char>)
    ensures
        join_with_slash(split_on_slash(u)) == u,
        split_on_slash(u).len() >= 1,
    decreases u.len(),
{
    lemma_find_slash(u, 0);
    let e = find_slash(u, 0);
    if e < u.len() {
        let rest = u.subrange(e + 1, u.len() as int);
        lemma_join_split(rest);
        let parts = split_on_slash(u);
        assert(parts.drop_first() =~= split_on_slash(rest));
        assert(u.subrange(0, e) + seq!['/'] + rest =~= u);
    }
}

/// Reading a path that starts with `'/'` segment by segment gives its pieces between `'/'`s
/// (after the first one), empty pieces included; `'/'` followed by those pieces joined with
/// `'/'` is the path again.
pub proof fn law_segments_are_split_at_slashes(s: Seq<char>)
    requires
        s.len() > 0,
        s[0] == '/',
    ensures
        segments_from(s, 0) == split_on_slash(s.drop_first()),
        seq!['/'] + join_with_slash(segments_from(s, 0)) == s,
{
    lemma_segments_split(s, 0);
    assert(s.subrange(1, s.len() as int) =~= s.drop_first());
    lemma_join_split(s.drop_first());
    assert(seq!['/'] + s.drop_first() =~= s);
}

/// Splits a path such as `/a/b/c` into `a`, `b`, `c`, one segment per call of
/// [`TrackedSplit::next`], and can hand out the part consumed so far and the rest.
///
/// The cursor sits at the start of the text, at its end, or on the `'/'` that opens the
/// segment to be read next. A segment is what follows the character under the cursor, up to
/// the next `'/'` or the end.
pub struct TrackedSplit<'a> {
    string: &'a str,
    chars: Vec<char>,
    start: usize,
}

impl<'a> TrackedSplit<'a> {
    /// The text being split.
    pub closed spec fn text(&self) -> Seq<char> {
        self.string@
    }

    /// How many characters of the text have been consumed.
    pub closed spec fn cursor(&self) -> int {
        self.start as int
    }

    /// The internal state agrees with the text, and the cursor is at the start, at the end,
    /// or on a `'/'`.
    pub closed spec fn wf(&self) -> bool {
        &&& self.chars@ == self.string@
        &&& self.start <= self.chars.len()
        &&& 0 < self.start < self.chars.len() ==> self.chars@[self.start as int] == '/'
    }

    /// The next call of `next` can read on: the character under the cursor, if any, is one
    /// byte long, so that the segment starts on a character boundary.
    pub open spec fn can_advance(&self) -> bool {
        single_byte_at(self.text(), self.cursor())
    }

    /// A splitter at the start of `input`.
    pub fn new(input: &'a str) -> (r: Self)
        ensures
            r.wf(),
            r.text() == input@,
            r.cursor() == 0,
    {
        TrackedSplit { string: input, chars: chars_of(input), start: 0 }
    }

    /// The part of the text consumed so far.
    pub fn consumed(&self) -> (r: &'a str)
        requires
            self.wf(),
        ensures
            r@ == self.text().subrange(0, self.cursor()),
    {
        slice(self.string, 0, self.start)
    }

    /// The part of the text not consumed yet.
    pub fn remainder(&self) -> (r: &'a str)
        requires
            self.wf(),
        ensures
            r@ == self.text().subrange(self.cursor(), self.text().len() as int),
    {
        slice(self.string, self.start, self.chars.len())
    }

    /// The next segment: `None` once the whole text is consumed; otherwise what follows the
    /// character under the cursor up to the next `'/'` (or the end), and the cursor moves to
    /// that `'/'` (or the end).
    pub fn next(&mut self) -> (r: Option<&'a str>)
        requires
            old(self).wf(),
            old(self).can_advance(),
        ensures
            final(self).wf(),
            final(self).text() == old(self).text(),
            0 <= final(self).cursor() <= final(self).text().len(),
            old(self).cursor() <= final(self).cursor(),
            final(self).can_advance(),
            r is None <==> segments_from(old(self).text(), old(self).cursor()).len() == 0,
            r matches Some(seg) ==> segments_from(old(self).text(), old(self).cursor()) == seq![seg@]
                + segments_from(final(self).text(), final(self).cursor()),
            old(self).cursor() == old(self).text().len() ==> r is None && final(self).cursor()
                == old(self).cursor(),
            old(self).cursor() < old(self).text().len() ==> {
                let stop = find_slash(old(self).text(), old(self).cursor() + 1);
                &&& r matches Some(seg) && seg@ == old(self).text().subrange(
                    old(self).cursor() + 1,
                    stop,
                ) && (forall|k: int| 0 <= k < seg@.len() ==> seg@[k] != '/')
                &&& final(self).cursor() == stop
            },
    {
        if self.start == self.chars.len() {
            return None;
        }
        let stop = next_slash(&self.chars, self.start + 1);
        proof {
            lemma_find_slash(self.chars@, self.start + 1);
        }
        let segment = slice(self.string, self.start + 1, stop);
        assert(forall|k: int| 0 <= k < segment@.len() ==> segment@[k] == self.chars@[self.start + 1 + k]);
        self.start = stop;
        Some(segment)
    }
}

/// What has been consumed followed by what is left is the whole text, wherever the cursor is.
pub proof fn law_split_covers_text(t: TrackedSplit)
    requires
        t.wf(),
    ensures
        0 <= t.cursor() <= t.text().len(),
        t.text().subrange(0, t.cursor()) + t.text().subrange(t.cursor(), t.text().len() as int)
            == t.text(),
{
    assert(t.text().subrange(0, t.cursor()) + t.text().subrange(t.cursor(), t.text().len() as int)
        =~= t.text());
}

} // verus!
