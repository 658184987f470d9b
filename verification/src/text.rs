//! Character-level helpers on string slices.
use vstd::prelude::*;
use vstd::string::*;

verus! {

broadcast use vstd::string::group_string_axioms;

/// Index of the first `'/'` at or after `i` in `s`, or `s.len()` when there is none.
pub open spec fn find_slash(s: Seq<char>, i: int) -> int
    decreases s.len() - i,
{
    if i >= s.len() {
        s.len() as int
    } else if s[i] == '/' {
        i
    } else {
        find_slash(s, i + 1)
    }
}

/// `find_slash` lands between its start and the end of the text, on a `'/'` unless it is the
/// end, and no `'/'` lies between its start and the place where it lands.
pub proof fn lemma_find_slash(s: Seq<char>, i: int)
    requires
        0 <= i <= s.len(),
    ensures
        i <= find_slash(s, i) <= s.len(),
        find_slash(s, i) < s.len() ==> s[find_slash(s, i)] == '/',
        forall|k: int| i <= k < find_slash(s, i) ==> s[k] != '/',
    decreases s.len() - i,
{
    if i < s.len() && s[i] != '/' {
        lemma_find_slash(s, i + 1);
    }
}

/// The character at position `i` of `s`, if there is one, is encoded in a single UTF-8 byte.
pub open spec fn single_byte_at(s: Seq<char>, i: int) -> bool {
    0 <= i < s.len() ==> (s[i] as u32) < 128
}

/// The characters of `s`, in order.
pub fn chars_of(s: &str) -> (v: Vec<char>)
    ensures
        v@ == s@,
{
    let mut v: Vec<char> = Vec::new();
    for c in it: s.chars()
        invariant
            v@ == it.seq().take(it.index() as int),
    {
        v.push(c);
    }
    v
}

/// Whether two string slices hold the same characters.
pub fn str_eq(a: &str, b: &str) -> (r: bool)
    ensures
        r == (a@ == b@),
{
    let x = chars_of(a);
    let y = chars_of(b);
    if x.len() != y.len() {
        return false;
    }
    let mut i: usize = 0;
    while i < x.len()
        invariant
            x@ == a@,
            y@ == b@,
            x.len() == y.len(),
            i <= x.len(),
            forall|k: int| 0 <= k < i ==> x@[k] == y@[k],
        decreases x.len() - i,
    {
        if x[i] != y[i] {
            return false;
        }
        i = i + 1;
    }
    assert(a@ =~= b@);
    true
}

/// The characters of `s` from position `from` up to, but not including, `to`.
pub fn slice<'a>(s: &'a str, from: usize, to: usize) -> (r: &'a str)
    requires
        from <= to <= s@.len(),
    ensures
        r@ == s@.subrange(from as int, to as int),
{
    s.substring_char(from, to)
}

/// Index of the first `'/'` at or after `i` in `chars`, or its length when there is none.
pub fn next_slash(chars: &Vec<char>, i: usize) -> (r: usize)
    requires
        i <= chars.len(),
    ensures
        r == find_slash(chars@, i as int),
{
    let mut j = i;
    proof {
        lemma_find_slash(chars@, i as int);
    }
    while j < chars.len() && chars[j] != '/'
        invariant
            i <= j <= chars.len(),
            find_slash(chars@, j as int) == find_slash(chars@, i as int),
        decreases chars.len() - j,
    {
        j = j + 1;
    }
    j
}

} // verus!
