use vstd::prelude::*;

verus! {

/// A closed interval `[start, end]` of element positions.
#[derive(Clone, Copy)]
pub struct Range {
    pub start: usize,
    pub end: usize,
}

impl Range {
    pub fn new(start: usize, end: usize) -> (r: Range)
        ensures
            r.start == start,
            r.end == end,
    {
        Range { start, end }
    }
}

/// The structural part of an arena node: its interval and its two child links.
pub type Link = (usize, usize, Option<usize>, Option<usize>);

/// Number of arena slots taken by the subtree over `[s, e]`.
pub open spec fn span(s: int, e: int) -> int {
    2 * (e - s) + 1
}

pub open spec fn mid(s: int, e: int) -> int {
    (s + e) / 2
}

/// Arena index of the left child of the node stored at `i`.
pub open spec fn left_of(i: int) -> int {
    i + 1
}

/// Arena index of the right child of the node stored at `i` that covers `[s, e]`.
pub open spec fn right_of(i: int, s: int, e: int) -> int {
    i + 2 * (mid(s, e) - s + 1)
}

/// The subtree over `[s, e]` is laid out depth-first from arena index `i`:
/// the node at `i` covers `[s, e]`; a node with `s == e` is a leaf with no
/// children; any other node splits at the midpoint, its left child right after
/// it and its right child right after the whole left subtree. A tree over `n`
/// positions thus takes `2n - 1` slots, and every subtree a contiguous run of
/// them, so work on one subtree leaves every slot outside that run alone.
pub open spec fn shaped(links: Seq<Link>, i: int, s: int, e: int) -> bool
    decreases e - s,
{
    &&& 0 <= s <= e
    &&& 0 <= i
    &&& i + span(s, e) <= links.len()
    &&& links[i].0 == s
    &&& links[i].1 == e
    &&& if s >= e {
        links[i].2 is None && links[i].3 is None
    } else {
        &&& links[i].2 == Some(left_of(i) as usize)
        &&& links[i].3 == Some(right_of(i, s, e) as usize)
        &&& shaped(links, left_of(i), s, mid(s, e))
        &&& shaped(links, right_of(i, s, e), mid(s, e) + 1, e)
    }
}

/// The two children of a node over `[s, e]` with `s < e` split its slots:
/// the left subtree ends where the right one starts, and both end where
/// the parent's subtree ends.
pub proof fn lemma_split(i: int, s: int, e: int)
    requires
        s < e,
    ensures
        s <= mid(s, e) < e,
        left_of(i) + span(s, mid(s, e)) == right_of(i, s, e),
        right_of(i, s, e) + span(mid(s, e) + 1, e) == i + span(s, e),
{
}

/// The shape of a subtree carries over to any arena that agrees on its slots.
pub proof fn lemma_shape_frame(a: Seq<Link>, b: Seq<Link>, i: int, s: int, e: int)
    requires
        shaped(a, i, s, e),
        i + span(s, e) <= b.len(),
        forall|j: int| i <= j < i + span(s, e) ==> a[j] == b[j],
    ensures
        shaped(b, i, s, e),
    decreases e - s,
{
    if s < e {
        lemma_split(i, s, e);
        lemma_shape_frame(a, b, left_of(i), s, mid(s, e));
        lemma_shape_frame(a, b, right_of(i, s, e), mid(s, e) + 1, e);
    }
}

/// `(start, end)` overlaps the interval `[s, e]` nowhere.
pub open spec fn disjoint(start: int, end: int, s: int, e: int) -> bool {
    s > end || e < start
}

} // verus!
