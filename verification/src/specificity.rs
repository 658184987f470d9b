//! How specific a route pattern is, compared with another.
use vstd::prelude::*;
use std::cmp::Ordering;
use crate::path::{is_root_pattern, route_pattern, root_free, PathSegment, RouterPath, SegmentView};

verus! {

/// From position `i` on, the first position where one pattern has a literal segment and the
/// other a parameter decides: `Some(true)` when `a` has the literal, `Some(false)` when `b`
/// has it, `None` when there is no such position.
pub open spec fn kind_decision(a: Seq<SegmentView>, b: Seq<SegmentView>, i: int) -> Option<bool>
    decreases a.len() - i,
{
    if i < 0 || i >= a.len() || i >= b.len() {
        None
    } else {
        match (a[i], b[i]) {
            (SegmentView::Static(_), SegmentView::Param(_)) => Some(true),
            (SegmentView::Param(_), SegmentView::Static(_)) => Some(false),
            _ => kind_decision(a, b, i + 1),
        }
    }
}

/// The specificity of pattern `a` compared with pattern `b`: the longer pattern is the more
/// specific; between patterns of one length, the first position where one has a literal
/// segment and the other a parameter decides for the literal.
pub open spec fn specificity_order(a: Seq<SegmentView>, b: Seq<SegmentView>) -> Ordering {
    if a.len() < b.len() {
        Ordering::Less
    } else if a.len() > b.len() {
        Ordering::Greater
    } else {
        match kind_decision(a, b, 0) {
            Some(true) => Ordering::Greater,
            Some(false) => Ordering::Less,
            None => Ordering::Equal,
        }
    }
}

/// The opposite of an ordering.
pub open spec fn flipped(o: Ordering) -> Ordering {
    match o {
        Ordering::Less => Ordering::Greater,
        Ordering::Equal => Ordering::Equal,
        Ordering::Greater => Ordering::Less,
    }
}

/// Pattern `a` is strictly more specific than pattern `b`.
pub open spec fn more_specific(a: Seq<SegmentView>, b: Seq<SegmentView>) -> bool {
    specificity_order(a, b) == Ordering::Greater
}

impl RouterPath {
    /// Whether this pattern is strictly more specific than `other`.
    pub fn is_more_specific(&self, other: &Self) -> (r: bool)
        ensures
            r == more_specific(self@, other@),
    {
        match self.cmp_specificity(other) {
            Ordering::Greater => true,
            _ => false,
        }
    }

    /// The first position, from `i` on, that decides between the two patterns.
    fn kinds_from(&self, other: &Self, i: usize) -> (r: Option<bool>)
        requires
            self@.len() == other@.len(),
            i <= self@.len(),
        ensures
            r == kind_decision(self@, other@, i as int),
    {
        let n = self.0.len();
        let mut j = i;
        while j < n
            invariant
                n == self@.len(),
                self@.len() == other@.len(),
                i <= j <= n,
                kind_decision(self@, other@, j as int) == kind_decision(self@, other@, i as int),
            decreases n - j,
        {
            assert(self@[j as int] == self.0@[j as int]@);
            assert(other@[j as int] == other.0@[j as int]@);
            match (&self.0[j], &other.0[j]) {
                (PathSegment::Static(_), PathSegment::Param(_)) => {
                    return Some(true);
                },
                (PathSegment::Param(_), PathSegment::Static(_)) => {
                    return Some(false);
                },
                _ => {},
            }
            j = j + 1;
        }
        None
    }

    /// Compares the specificity of two patterns: the longer is the more specific; between
    /// patterns of one length, the first position where one has a literal segment and the
    /// other a parameter decides for the literal.
    pub fn cmp_specificity(&self, other: &Self) -> (r: Ordering)
        ensures
            r == specificity_order(self@, other@),
    {
        let n = self.len();
        let m = other.len();
        if n < m {
            return Ordering::Less;
        }
        if n > m {
            return Ordering::Greater;
        }
        match self.kinds_from(other, 0) {
            Some(true) => Ordering::Greater,
            Some(false) => Ordering::Less,
            None => Ordering::Equal,
        }
    }
}

/// The decision between two patterns read the other way round is the opposite decision.
proof fn lemma_kind_decision_swap(a: Seq<SegmentView>, b: Seq<SegmentView>, i: int)
    ensures
        kind_decision(b, a, i) == match kind_decision(a, b, i) {
            Some(x) => Some(!x),
            None => None,
        },
    decreases a.len() - i,
{
    if !(i < 0 || i >= a.len() || i >= b.len()) {
        lemma_kind_decision_swap(a, b, i + 1);
    }
}

/// Nothing decides between a pattern and itself.
proof fn lemma_kind_decision_refl(a: Seq<SegmentView>, i: int)
    ensures
        kind_decision(a, a, i) is None,
    decreases a.len() - i,
{
    if !(i < 0 || i >= a.len()) {
        lemma_kind_decision_refl(a, i + 1);
    }
}

/// Comparing two patterns the other way round gives the opposite answer.
pub proof fn law_specificity_antisymmetric(a: Seq<SegmentView>, b: Seq<SegmentView>)
    ensures
        specificity_order(b, a) == flipped(specificity_order(a, b)),
{
    lemma_kind_decision_swap(a, b, 0);
}

/// Every pattern is exactly as specific as itself.
pub proof fn law_specificity_reflexive(a: Seq<SegmentView>)
    ensures
        specificity_order(a, a) == Ordering::Equal,
{
    lemma_kind_decision_refl(a, 0);
}

/// Among root-free patterns of one length, "more specific" chains.
proof fn lemma_kind_decision_trans_greater(
    a: Seq<SegmentView>,
    b: Seq<SegmentView>,
    c: Seq<SegmentView>,
    i: int,
)
    requires
        root_free(a),
        root_free(b),
        root_free(c),
        a.len() == b.len() == c.len(),
        0 <= i,
        kind_decision(a, b, i) == Some(true),
        kind_decision(b, c, i) == Some(true),
    ensures
        kind_decision(a, c, i) == Some(true),
    decreases a.len() - i,
{
    if i < a.len() {
        assert(!(a[i] is Root) && !(b[i] is Root) && !(c[i] is Root));
        if (a[i] is Static) == (b[i] is Static) && (b[i] is Static) == (c[i] is Static) {
            lemma_kind_decision_trans_greater(a, b, c, i + 1);
        }
    }
}

/// Among root-free patterns of one length, "equally specific" chains.
proof fn lemma_kind_decision_trans_equal(
    a: Seq<SegmentView>,
    b: Seq<SegmentView>,
    c: Seq<SegmentView>,
    i: int,
)
    requires
        root_free(a),
        root_free(b),
        root_free(c),
        a.len() == b.len() == c.len(),
        0 <= i,
        kind_decision(a, b, i) is None,
        kind_decision(b, c, i) is None,
    ensures
        kind_decision(a, c, i) is None,
    decreases a.len() - i,
{
    if i < a.len() {
        assert(!(a[i] is Root) && !(b[i] is Root) && !(c[i] is Root));
        lemma_kind_decision_trans_equal(a, b, c, i + 1);
    }
}

/// Among patterns without a root segment, "more specific than" is transitive.
pub proof fn law_specificity_greater_transitive(
    a: Seq<SegmentView>,
    b: Seq<SegmentView>,
    c: Seq<SegmentView>,
)
    requires
        root_free(a),
        root_free(b),
        root_free(c),
        specificity_order(a, b) == Ordering::Greater,
        specificity_order(b, c) == Ordering::Greater,
    ensures
        specificity_order(a, c) == Ordering::Greater,
{
    if a.len() == b.len() && b.len() == c.len() {
        lemma_kind_decision_trans_greater(a, b, c, 0);
    }
}

/// Among patterns without a root segment, "exactly as specific as" is transitive.
pub proof fn law_specificity_equal_transitive(
    a: Seq<SegmentView>,
    b: Seq<SegmentView>,
    c: Seq<SegmentView>,
)
    requires
        root_free(a),
        root_free(b),
        root_free(c),
        specificity_order(a, b) == Ordering::Equal,
        specificity_order(b, c) == Ordering::Equal,
    ensures
        specificity_order(a, c) == Ordering::Equal,
{
    lemma_kind_decision_trans_equal(a, b, c, 0);
}

/// Positions `j` with `i <= j < k` are not decisive: neither pattern has a literal there while
/// the other has a parameter.
pub open spec fn undecided_between(a: Seq<SegmentView>, b: Seq<SegmentView>, i: int, k: int) -> bool {
    forall|j: int|
        i <= j < k ==> !(#[trigger] a[j] is Static && b[j] is Param) && !(a[j] is Param
            && b[j] is Static)
}

/// Scanning from `i` up to an undecided stretch ends where the stretch ends.
proof fn lemma_kind_decision_skip(a: Seq<SegmentView>, b: Seq<SegmentView>, i: int, k: int)
    requires
        0 <= i <= k,
        a.len() == b.len(),
        k <= a.len(),
        undecided_between(a, b, i, k),
    ensures
        kind_decision(a, b, i) == kind_decision(a, b, k),
    decreases k - i,
{
    if i < k {
        lemma_kind_decision_skip(a, b, i + 1, k);
    }
}

/// With no decisive position at all, nothing decides.
proof fn lemma_undecided_throughout(a: Seq<SegmentView>, b: Seq<SegmentView>)
    requires
        a.len() == b.len(),
        forall|j: int|
            0 <= j < a.len() ==> !(#[trigger] a[j] is Static && b[j] is Param) && !(a[j] is Param
                && b[j] is Static),
    ensures
        kind_decision(a, b, 0) is None,
{
    lemma_kind_decision_skip(a, b, 0, a.len() as int);
}

/// The longer of two patterns is the more specific, whatever its segments.
pub proof fn law_longer_is_more_specific(a: Seq<SegmentView>, b: Seq<SegmentView>)
    requires
        a.len() > b.len(),
    ensures
        specificity_order(a, b) == Ordering::Greater,
        specificity_order(b, a) == Ordering::Less,
{
}

/// Between patterns of one length, the first position where one has a literal and the other
/// a parameter decides for the one with the literal, whatever follows.
pub proof fn law_first_difference_decides(a: Seq<SegmentView>, b: Seq<SegmentView>, k: int)
    requires
        a.len() == b.len(),
        0 <= k < a.len(),
        undecided_between(a, b, 0, k),
        a[k] is Static,
        b[k] is Param,
    ensures
        specificity_order(a, b) == Ordering::Greater,
        specificity_order(b, a) == Ordering::Less,
{
    lemma_kind_decision_skip(a, b, 0, k);
    assert forall|j: int| 0 <= j < k implies !(#[trigger] b[j] is Static && a[j] is Param) && !(
    b[j] is Param && a[j] is Static) by {
        assert(!(a[j] is Static && b[j] is Param) && !(a[j] is Param && b[j] is Static));
    }
    lemma_kind_decision_skip(b, a, 0, k);
}

/// Patterns of one length with no position where one has a literal and the other a parameter
/// are exactly as specific as each other.
pub proof fn law_no_difference_is_equal(a: Seq<SegmentView>, b: Seq<SegmentView>)
    requires
        a.len() == b.len(),
        forall|j: int|
            0 <= j < a.len() ==> !(#[trigger] a[j] is Static && b[j] is Param) && !(a[j] is Param
                && b[j] is Static),
    ensures
        specificity_order(a, b) == Ordering::Equal,
{
    lemma_undecided_throughout(a, b);
}

/// The root pattern is exactly as specific as any pattern of one segment.
proof fn lemma_root_only_by_length(a: Seq<SegmentView>, b: Seq<SegmentView>)
    requires
        is_root_pattern(a) || is_root_pattern(b),
        a.len() == b.len(),
    ensures
        kind_decision(a, b, 0) is None,
{
    assert(kind_decision(a, b, 1) is None);
}

/// Among the patterns that route strings stand for (the root pattern, and patterns without
/// a root segment), "more specific than" is transitive.
pub proof fn law_more_specific_transitive(a: Seq<SegmentView>, b: Seq<SegmentView>, c: Seq<SegmentView>)
    requires
        route_pattern(a),
        route_pattern(b),
        route_pattern(c),
        more_specific(a, b),
        more_specific(b, c),
    ensures
        more_specific(a, c),
{
    if a.len() == b.len() && b.len() == c.len() {
        if is_root_pattern(a) || is_root_pattern(b) {
            lemma_root_only_by_length(a, b);
        } else if is_root_pattern(c) {
            lemma_root_only_by_length(b, c);
        } else {
            lemma_kind_decision_trans_greater(a, b, c, 0);
        }
    } else {
        if a.len() == b.len() && (is_root_pattern(a) || is_root_pattern(b)) {
            lemma_root_only_by_length(a, b);
        }
        if b.len() == c.len() && (is_root_pattern(b) || is_root_pattern(c)) {
            lemma_root_only_by_length(b, c);
        }
    }
}

/// No pattern is more specific than itself.
pub proof fn law_more_specific_irreflexive(a: Seq<SegmentView>)
    ensures
        !more_specific(a, a),
{
    law_specificity_reflexive(a);
}

} // verus!
