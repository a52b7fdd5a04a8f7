use vstd::prelude::*;
use crate::segment::{Range, Link, span, mid, left_of, right_of, shaped, lemma_split, lemma_shape_frame};

verus! {

/// Largest shift that still leaves a bit in a `u128`, plus one.
pub const WIDTH: u128 = 128;

/// `x` shifted left by `k`, every bit lost once `k` reaches the width.
pub open spec fn shl(x: u128, k: int) -> u128 {
    if k == 0 {
        x
    } else if 0 < k < 128 {
        x << (k as u128)
    } else {
        0
    }
}

/// Bit `k` of `mask` is set: the position it describes has hit-count `k`.
pub open spec fn has_count(mask: u128, k: int) -> bool {
    mask & shl(1u128, k) != 0
}

proof fn bv_shl_shl(x: u128, a: u128, b: u128)
    requires
        a < 128,
        b < 128,
        a + b < 128,
    ensures
        (x << a) << b == x << ((a + b) as u128),
{
    assert((x << a) << b == x << ((a + b) as u128)) by (bit_vector)
        requires
            a < 128,
            b < 128,
            a + b < 128,
    ;
}

proof fn bv_shl_past(x: u128, a: u128, b: u128)
    requires
        a < 128,
        b < 128,
        a + b >= 128,
    ensures
        (x << a) << b == 0,
{
    assert((x << a) << b == 0) by (bit_vector)
        requires
            a < 128,
            b < 128,
            a + b >= 128,
    ;
}

proof fn bv_shl_or(x: u128, y: u128, k: u128)
    requires
        k < 128,
    ensures
        (x | y) << k == (x << k) | (y << k),
{
    assert((x | y) << k == (x << k) | (y << k)) by (bit_vector);
}

#[verifier::rlimit(100)]
proof fn bv_shl_and(x: u128, m: u128, k: u128)
    requires
        k < 128,
    ensures
        ((x << k) & m != 0) == (x & (m >> k) != 0),
{
    assert(((x << k) & m != 0) == (x & (m >> k) != 0)) by (bit_vector)
        requires
            k < 128,
    ;
}

proof fn bv_or_and(x: u128, y: u128, m: u128)
    ensures
        ((x | y) & m != 0) == ((x & m != 0) || (y & m != 0)),
{
    assert(((x | y) & m != 0) == ((x & m != 0) || (y & m != 0))) by (bit_vector);
}

proof fn bv_single_bits(a: u128, b: u128)
    requires
        a < 128,
        b < 128,
    ensures
        ((1u128 << a) & (1u128 << b) != 0) == (a == b),
{
    assert(((1u128 << a) & (1u128 << b) != 0) == (a == b)) by (bit_vector)
        requires
            a < 128,
            b < 128,
    ;
}


/// Shifting by `a` and then by `b` is shifting by `a + b`.
pub proof fn lemma_shl_shl(x: u128, a: int, b: int)
    requires
        0 <= a,
        0 <= b,
    ensures
        shl(shl(x, a), b) == shl(x, a + b),
{
    if a == 0 || b == 0 {
    } else if a < 128 && b < 128 {
        if a + b < 128 {
            bv_shl_shl(x, a as u128, b as u128);
        } else {
            bv_shl_past(x, a as u128, b as u128);
        }
    } else if b < 128 {
        let bb = b as u128;
        assert(0u128 << bb == 0) by (bit_vector);
    }
}

/// A shift distributes over a bitwise or.
pub proof fn lemma_shl_or(x: u128, y: u128, k: int)
    requires
        0 <= k,
    ensures
        shl(x | y, k) == shl(x, k) | shl(y, k),
{
    if k == 0 {
    } else if k < 128 {
        bv_shl_or(x, y, k as u128);
    } else {
        assert(0u128 | 0u128 == 0u128) by (bit_vector);
    }
}

/// `m` shifted right by `k`, for `k` below the width.
pub open spec fn shr(m: u128, k: int) -> u128 {
    if k == 0 {
        m
    } else {
        m >> (k as u128)
    }
}

/// Masking after a shift is masking before it with the mask shifted back.
proof fn lemma_shl_and(x: u128, m: u128, k: int)
    requires
        0 <= k,
    ensures
        (shl(x, k) & m != 0) == (k < 128 && x & shr(m, k) != 0),
{
    if k == 0 {
    } else if k < 128 {
        bv_shl_and(x, m, k as u128);
    } else {
        assert(0u128 & m == 0) by (bit_vector);
    }
}



/// A node of the hit arena: the bitwise or of the hit masks of its interval,
/// and the arena indices of its two children (both absent for a leaf).
#[derive(Clone, Copy)]
pub struct URangeNode {
    pub key: u128,
    pub range: Range,
    pub id_left: Option<usize>,
    pub id_right: Option<usize>,
}

impl URangeNode {
    fn new(key: u128, range: Range) -> (r: URangeNode)
        ensures
            r.key == key,
            r.range == range,
            r.id_left is None,
            r.id_right is None,
    {
        URangeNode { key, range, id_left: None, id_right: None }
    }

    /// A copy of this node's mask and interval, detached from any children.
    pub fn clone_node(&self) -> (r: URangeNode)
        ensures
            r.key == self.key,
            r.range == self.range,
            r.id_left is None,
            r.id_right is None,
    {
        URangeNode::new(self.key, Range::new(self.range.start, self.range.end))
    }
}

pub open spec fn ulinks(nodes: Seq<URangeNode>) -> Seq<Link> {
    nodes.map_values(|n: URangeNode| (n.range.start, n.range.end, n.id_left, n.id_right))
}

/// A pending shift `c` with `t` more on top, kept at most at the width.
pub open spec fn bump(c: u128, t: u128) -> u128 {
    if c + t >= WIDTH { WIDTH } else { (c + t) as u128 }
}

/// No pending shift exceeds the width.
pub open spec fn shifts_bounded(lazy: Seq<u128>) -> bool {
    forall|j: int| 0 <= j < lazy.len() ==> #[trigger] lazy[j] <= WIDTH
}

/// The mask of node `i` once its own pending shift is applied.
pub open spec fn uflushed(nodes: Seq<URangeNode>, lazy: Seq<u128>, i: int) -> u128 {
    shl(nodes[i].key, lazy[i] as int)
}

/// The hit mask at position `p` in the subtree at `i` over `[s, e]`, with the
/// pending shifts of all nodes under `i` applied, but not the one of `i`.
pub open spec fn ubelow(nodes: Seq<URangeNode>, lazy: Seq<u128>, i: int, s: int, e: int, p: int) -> u128
    decreases e - s,
{
    if s >= e {
        nodes[i].key
    } else if p <= mid(s, e) {
        shl(ubelow(nodes, lazy, left_of(i), s, mid(s, e), p), lazy[left_of(i)] as int)
    } else {
        shl(ubelow(nodes, lazy, right_of(i, s, e), mid(s, e) + 1, e, p), lazy[right_of(i, s, e)] as int)
    }
}

/// The hit mask at position `p` in the subtree at `i` over `[s, e]`, every
/// pending shift on the way applied.
pub open spec fn mask_at(nodes: Seq<URangeNode>, lazy: Seq<u128>, i: int, s: int, e: int, p: int) -> u128 {
    shl(ubelow(nodes, lazy, i, s, e, p), lazy[i] as int)
}

/// Every internal node under `i` holds the bitwise or of its children's
/// masks, each taken after the child's own pending shift.
pub open spec fn or_ok(nodes: Seq<URangeNode>, lazy: Seq<u128>, i: int, s: int, e: int) -> bool
    decreases e - s,
{
    if s >= e {
        true
    } else {
        &&& or_ok(nodes, lazy, left_of(i), s, mid(s, e))
        &&& or_ok(nodes, lazy, right_of(i, s, e), mid(s, e) + 1, e)
        &&& nodes[i].key == uflushed(nodes, lazy, left_of(i)) | uflushed(nodes, lazy, right_of(i, s, e))
    }
}

/// Some position of `[lo, hi]` inside the subtree at `i` has a mask that meets `m`.
pub open spec fn meets(nodes: Seq<URangeNode>, lazy: Seq<u128>, i: int, s: int, e: int, lo: int, hi: int, m: u128) -> bool {
    exists|p: int| lo <= p <= hi && s <= p <= e && #[trigger] mask_at(nodes, lazy, i, s, e, p) & m != 0
}

/// `vals` with the hit-count at every position of `[lo, hi]` raised by one.
pub open spec fn bumped(vals: Seq<u128>, lo: int, hi: int) -> Seq<u128> {
    Seq::new(vals.len(), |p: int| if lo <= p <= hi { shl(vals[p], 1) } else { vals[p] })
}

/// The mask of a well-formed subtree meets `m` exactly where the mask of
/// some position below it does.
proof fn lemma_top(nodes: Seq<URangeNode>, lazy: Seq<u128>, i: int, s: int, e: int, m: u128)
    requires
        shaped(ulinks(nodes), i, s, e),
        or_ok(nodes, lazy, i, s, e),
    ensures
        (nodes[i].key & m != 0) == (exists|p: int| s <= p <= e && #[trigger] ubelow(nodes, lazy, i, s, e, p) & m != 0),
    decreases e - s,
{
    if s >= e {
        assert(ubelow(nodes, lazy, i, s, e, s) == nodes[i].key);
    } else {
        lemma_split(i, s, e);
        let l = left_of(i);
        let r = right_of(i, s, e);
        let md = mid(s, e);
        let zl = lazy[l] as int;
        let zr = lazy[r] as int;
        bv_or_and(uflushed(nodes, lazy, l), uflushed(nodes, lazy, r), m);
        lemma_shl_and(nodes[l].key, m, zl);
        lemma_shl_and(nodes[r].key, m, zr);
        lemma_top(nodes, lazy, l, s, md, shr(m, zl));
        lemma_top(nodes, lazy, r, md + 1, e, shr(m, zr));
        assert forall|p: int| s <= p <= e implies (#[trigger] ubelow(nodes, lazy, i, s, e, p) & m != 0) == (if p
            <= md {
            zl < 128 && ubelow(nodes, lazy, l, s, md, p) & shr(m, zl) != 0
        } else {
            zr < 128 && ubelow(nodes, lazy, r, md + 1, e, p) & shr(m, zr) != 0
        }) by {
            if p <= md {
                lemma_shl_and(ubelow(nodes, lazy, l, s, md, p), m, zl);
            } else {
                lemma_shl_and(ubelow(nodes, lazy, r, md + 1, e, p), m, zr);
            }
        }
        if nodes[i].key & m != 0 {
            if uflushed(nodes, lazy, l) & m != 0 {
                let q = choose|q: int| s <= q <= md && #[trigger] ubelow(nodes, lazy, l, s, md, q) & shr(m, zl) != 0;
                assert(ubelow(nodes, lazy, i, s, e, q) & m != 0);
            } else {
                let q = choose|q: int| md + 1 <= q <= e && #[trigger] ubelow(nodes, lazy, r, md + 1, e, q) & shr(m, zr) != 0;
                assert(ubelow(nodes, lazy, i, s, e, q) & m != 0);
            }
        }
    }
}

/// A subtree's masks depend only on its own slots (the pending shift of its
/// root aside, for `ubelow` and `or_ok`).
proof fn lemma_frame(
    n1: Seq<URangeNode>,
    l1: Seq<u128>,
    n2: Seq<URangeNode>,
    l2: Seq<u128>,
    i: int,
    s: int,
    e: int,
)
    requires
        shaped(ulinks(n1), i, s, e),
        forall|j: int| i <= j < i + span(s, e) ==> n1[j].key == n2[j].key,
        forall|j: int| i < j < i + span(s, e) ==> l1[j] == l2[j],
    ensures
        forall|p: int| ubelow(n1, l1, i, s, e, p) == #[trigger] ubelow(n2, l2, i, s, e, p),
        or_ok(n1, l1, i, s, e) == or_ok(n2, l2, i, s, e),
    decreases e - s,
{
    if s < e {
        lemma_split(i, s, e);
        lemma_frame(n1, l1, n2, l2, left_of(i), s, mid(s, e));
        lemma_frame(n1, l1, n2, l2, right_of(i, s, e), mid(s, e) + 1, e);
        assert forall|p: int| ubelow(n1, l1, i, s, e, p) == #[trigger] ubelow(n2, l2, i, s, e, p) by {
            if p <= mid(s, e) {
                assert(ubelow(n1, l1, left_of(i), s, mid(s, e), p) == ubelow(n2, l2, left_of(i), s, mid(s, e), p));
            } else {
                assert(ubelow(n1, l1, right_of(i, s, e), mid(s, e) + 1, e, p) == ubelow(
                    n2,
                    l2,
                    right_of(i, s, e),
                    mid(s, e) + 1,
                    e,
                    p,
                ));
            }
        }
    }
}

/// The mask at `p` under an internal node is the mask under the child that
/// holds `p`, shifted by the node's own pending shift.
proof fn lemma_unfold(nodes: Seq<URangeNode>, lazy: Seq<u128>, i: int, s: int, e: int, p: int)
    requires
        s < e,
    ensures
        mask_at(nodes, lazy, i, s, e, p) == shl(
            if p <= mid(s, e) {
                mask_at(nodes, lazy, left_of(i), s, mid(s, e), p)
            } else {
                mask_at(nodes, lazy, right_of(i, s, e), mid(s, e) + 1, e, p)
            },
            lazy[i] as int,
        ),
{
}

/// A saturated pending shift acts as the plain sum of the two shifts.
proof fn lemma_bump(x: u128, c: u128, t: u128)
    requires
        c <= WIDTH,
        t <= WIDTH,
    ensures
        shl(x, bump(c, t) as int) == shl(shl(x, c as int), t as int),
{
    lemma_shl_shl(x, c as int, t as int);
}

/// An arena with no pending shift anywhere.
pub open spec fn no_shift(len: nat) -> Seq<u128> {
    Seq::new(len, |j: int| 0u128)
}

/// Appends to `nodes` the subtree over `[start, end]`, every position with
/// hit-count zero, laid out depth-first from the current end of `nodes`.
fn tree_init_zero(start: usize, end: usize, nodes: &mut Vec<URangeNode>)
    requires
        start <= end,
        old(nodes).len() + span(start as int, end as int) <= usize::MAX,
    ensures
        final(nodes).len() == old(nodes).len() + span(start as int, end as int),
        final(nodes)@.subrange(0, old(nodes).len() as int) == old(nodes)@,
        shaped(ulinks(final(nodes)@), old(nodes).len() as int, start as int, end as int),
        or_ok(final(nodes)@, no_shift(final(nodes).len() as nat), old(nodes).len() as int, start as int, end as int),
        final(nodes)@[old(nodes).len() as int].key == 1,
        forall|p: int|
            start <= p <= end ==> #[trigger] ubelow(
                final(nodes)@,
                no_shift(final(nodes).len() as nat),
                old(nodes).len() as int,
                start as int,
                end as int,
                p,
            ) == 1,
    decreases end - start,
{
    let i = nodes.len();
    if start == end {
        nodes.push(URangeNode::new(1, Range::new(start, end)));
        proof {
            assert(ulinks(nodes@)[i as int] == (start, end, None::<usize>, None::<usize>));
            assert(nodes@.subrange(0, i as int) =~= old(nodes)@);
        }
        return;
    }
    let m = start + (end - start) / 2;
    proof {
        lemma_split(i as int, start as int, end as int);
        assert(m == mid(start as int, end as int));
    }
    let right = i + 2 * (m - start + 1);
    nodes.push(URangeNode { key: 1, range: Range::new(start, end), id_left: Some(i + 1), id_right: Some(right) });
    let ghost n0 = nodes@;
    tree_init_zero(start, m, nodes);
    let ghost n1 = nodes@;
    tree_init_zero(m + 1, end, nodes);
    proof {
        let n2 = nodes@;
        let len = nodes.len() as nat;
        let l = i + 1;
        assert(n1.subrange(0, l as int) == n0);
        assert(n2.subrange(0, right as int) == n1);
        assert(nodes@.subrange(0, i as int) =~= old(nodes)@) by {
            assert forall|j: int| 0 <= j < i implies nodes@[j] == old(nodes)@[j] by {
                assert(n0[j] == n1[j]);
                assert(n1[j] == n2[j]);
            }
        }
        assert forall|j: int| l <= j < right implies #[trigger] nodes@[j] == n1[j] by {
            assert(n1[j] == n2.subrange(0, right as int)[j]);
        }
        lemma_shape_frame(ulinks(n1), ulinks(nodes@), l as int, start as int, m as int);
        lemma_frame(n1, no_shift(n1.len()), nodes@, no_shift(len), l as int, start as int, m as int);
        lemma_frame(n2, no_shift(n2.len()), nodes@, no_shift(len), right as int, m + 1, end as int);
        assert(n0[i as int] == n1[i as int]);
        assert(ulinks(nodes@)[i as int] == (start, end, Some((i + 1) as usize), Some(right)));
        assert(no_shift(len)[l as int] == 0);
        assert(no_shift(len)[right as int] == 0);
        assert(1u128 | 1u128 == 1u128) by (bit_vector);
        assert forall|p: int| start <= p <= end implies #[trigger] ubelow(
            nodes@,
            no_shift(len),
            i as int,
            start as int,
            end as int,
            p,
        ) == 1 by {
            if p <= m {
                assert(ubelow(n1, no_shift(n1.len()), l as int, start as int, m as int, p) == 1);
                assert(ubelow(nodes@, no_shift(len), l as int, start as int, m as int, p) == 1);
            } else {
                assert(ubelow(n2, no_shift(n2.len()), right as int, m + 1, end as int, p) == 1);
                assert(ubelow(nodes@, no_shift(len), right as int, m + 1, end as int, p) == 1);
            }
        }
    }
}


/// The hit engine: a depth-first arena of mask nodes and, beside it, one
/// pending shift per node.
pub struct IsThere {
    nodes: Vec<URangeNode>,
    lazy_nodes: Vec<u128>,
}

impl View for IsThere {
    type V = Seq<u128>;

    /// The hit mask at each position, every pending shift applied.
    closed spec fn view(&self) -> Seq<u128> {
        Seq::new(
            self.size(),
            |p: int| mask_at(self.nodes@, self.lazy_nodes@, 0, 0, self.size() - 1, p),
        )
    }
}

impl IsThere {
    /// Number of positions.
    pub closed spec fn size(&self) -> nat {
        ((self.nodes.len() + 1) / 2) as nat
    }

    /// The arena holds one tree over all positions, every internal node
    /// holding the bitwise or of its children's flushed masks.
    pub closed spec fn wf(&self) -> bool {
        &&& self.nodes.len() == self.lazy_nodes.len()
        &&& self.nodes.len() == 2 * self.size() - 1
        &&& self.size() >= 1
        &&& shifts_bounded(self.lazy_nodes@)
        &&& shaped(ulinks(self.nodes@), 0, 0, self.size() - 1)
        &&& or_ok(self.nodes@, self.lazy_nodes@, 0, 0, self.size() - 1)
    }

    /// Builds the engine over `interval` positions, each with hit-count zero.
    pub fn new(interval: u128) -> (r: Self)
        requires
            0 < interval <= usize::MAX / 2,
        ensures
            r.wf(),
            r@ == Seq::new(interval as nat, |p: int| 1u128),
    {
        let n = interval as usize;
        let mut seg_tree: Vec<URangeNode> = Vec::new();
        tree_init_zero(0, n - 1, &mut seg_tree);
        let total = seg_tree.len();
        let mut lazy_tree: Vec<u128> = Vec::new();
        let mut j: usize = 0;
        while j < total
            invariant
                j <= total,
                lazy_tree@ =~= no_shift(j as nat),
            decreases total - j,
        {
            lazy_tree.push(0);
            j = j + 1;
        }
        let r = IsThere { nodes: seg_tree, lazy_nodes: lazy_tree };
        proof {
            assert(r.size() == n);
            assert(r@ =~= Seq::new(interval as nat, |p: int| 1u128));
        }
        r
    }

    /// Number of positions.
    pub fn len(&self) -> (r: usize)
        requires
            self.wf(),
        ensures
            r == self@.len(),
    {
        (self.nodes.len() - 1) / 2 + 1
    }

    /// Raises by one the hit-count of every position of `[start, end]`
    /// (0-indexed, inclusive).
    pub fn update_increment(&mut self, start: usize, end: usize)
        requires
            old(self).wf(),
            start <= end < old(self)@.len(),
        ensures
            final(self).wf(),
            final(self)@ == bumped(old(self)@, start as int, end as int),
    {
        let ghost n = self.size() as int;
        self.update(start, end, 0, Ghost(0), Ghost(n - 1));
        proof {
            assert(self.size() == n);
            assert(self@ =~= bumped(old(self)@, start as int, end as int));
        }
    }

    /// Whether some position of `[start, end]` (0-indexed, inclusive) has
    /// hit-count exactly `k`.
    pub fn query_has_count(&mut self, start: usize, end: usize, k: u128) -> (r: bool)
        requires
            old(self).wf(),
            start <= end < old(self)@.len(),
            k < WIDTH,
        ensures
            final(self).wf(),
            final(self)@ == old(self)@,
            r == exists|p: int| start <= p <= end && #[trigger] has_count(old(self)@[p], k as int),
    {
        let ghost n = self.size() as int;
        let bit: u128 = if k == 0 { 1 } else { 1u128 << k };
        let found = self.is_there(start, end, bit, 0, Ghost(0), Ghost(n - 1));
        proof {
            assert(self.size() == n);
            assert(self@ =~= old(self)@);
            assert(bit == shl(1u128, k as int));
            if found {
                let w = choose|p: int|
                    start <= p <= end && 0 <= p <= n - 1 && #[trigger] mask_at(
                        old(self).nodes@,
                        old(self).lazy_nodes@,
                        0,
                        0,
                        n - 1,
                        p,
                    ) & bit != 0;
                assert(has_count(old(self)@[w], k as int));
            } else {
                assert forall|p: int| start <= p <= end implies !#[trigger] has_count(old(self)@[p], k as int) by {
                    assert(!(mask_at(old(self).nodes@, old(self).lazy_nodes@, 0, 0, n - 1, p) & bit != 0));
                }
            }
        }
        found
    }

    /// Runs one request over `[i, j]` (0-indexed, inclusive): `query == 1`
    /// answers 1 if some position there has hit-count exactly `k` and 0
    /// otherwise; any other request raises their hit-counts by one and
    /// answers 0.
    pub fn query(&mut self, query: usize, i: usize, j: usize, k: u128) -> (r: i8)
        requires
            old(self).wf(),
            i <= j < old(self)@.len(),
            k < WIDTH,
        ensures
            final(self).wf(),
            query == 1 ==> final(self)@ == old(self)@ && r == if exists|p: int|
                i <= p <= j && #[trigger] has_count(old(self)@[p], k as int) {
                1i8
            } else {
                0i8
            },
            query != 1 ==> final(self)@ == bumped(old(self)@, i as int, j as int) && r == 0,
    {
        if query == 1 {
            if self.query_has_count(i, j, k) {
                return 1;
            }
            return 0;
        }
        self.update_increment(i, j);
        0
    }

    /// Applies the pending shift of `node` to its mask, hands it down to its
    /// children, and clears it. No mask changes.
    fn update_node(&mut self, node: usize, Ghost(s): Ghost<int>, Ghost(e): Ghost<int>)
        requires
            old(self).nodes.len() == old(self).lazy_nodes.len(),
            shifts_bounded(old(self).lazy_nodes@),
            shaped(ulinks(old(self).nodes@), node as int, s, e),
            or_ok(old(self).nodes@, old(self).lazy_nodes@, node as int, s, e),
        ensures
            final(self).nodes.len() == final(self).lazy_nodes.len(),
            shifts_bounded(final(self).lazy_nodes@),
            ulinks(final(self).nodes@) == ulinks(old(self).nodes@),
            forall|j: int|
                0 <= j < old(self).nodes.len() && !(node <= j < node + span(s, e)) ==> #[trigger] final(self).nodes@[j]
                    == old(self).nodes@[j],
            forall|j: int|
                0 <= j < old(self).nodes.len() && !(node <= j < node + span(s, e)) ==> #[trigger] final(self).lazy_nodes@[j]
                    == old(self).lazy_nodes@[j],
            or_ok(final(self).nodes@, final(self).lazy_nodes@, node as int, s, e),
            final(self).lazy_nodes@[node as int] == 0,
            uflushed(final(self).nodes@, final(self).lazy_nodes@, node as int) == uflushed(
                old(self).nodes@,
                old(self).lazy_nodes@,
                node as int,
            ),
            forall|p: int|
                #[trigger] mask_at(final(self).nodes@, final(self).lazy_nodes@, node as int, s, e, p)
                    == mask_at(old(self).nodes@, old(self).lazy_nodes@, node as int, s, e, p),
    {
        let shift = self.lazy_nodes[node];
        if shift > 0 {
            let mut current = self.nodes[node];
            if shift >= WIDTH {
                current.key = 0;
            } else {
                current.key = current.key << shift;
            }
            self.nodes.set(node, current);
            proof {
                assert(ulinks(self.nodes@) =~= ulinks(old(self).nodes@));
            }
            self.propagate(node, shift, Ghost(s), Ghost(e));
            self.lazy_nodes.set(node, 0);
            proof {
                let n0 = old(self).nodes@;
                let l0 = old(self).lazy_nodes@;
                let n2 = self.nodes@;
                let l2 = self.lazy_nodes@;
                if s < e {
                    lemma_split(node as int, s, e);
                    let l = left_of(node as int);
                    let r = right_of(node as int, s, e);
                    let m = mid(s, e);
                    lemma_frame(n0, l0, n2, l2, l, s, m);
                    lemma_frame(n0, l0, n2, l2, r, m + 1, e);
                    lemma_bump(n0[l].key, l0[l], shift);
                    lemma_bump(n0[r].key, l0[r], shift);
                    lemma_shl_or(uflushed(n0, l0, l), uflushed(n0, l0, r), shift as int);
                    assert forall|p: int|
                        #[trigger] mask_at(n2, l2, node as int, s, e, p) == mask_at(n0, l0, node as int, s, e, p) by {
                        lemma_unfold(n0, l0, node as int, s, e, p);
                        if p <= m {
                            assert(ubelow(n2, l2, l, s, m, p) == ubelow(n0, l0, l, s, m, p));
                            lemma_bump(ubelow(n0, l0, l, s, m, p), l0[l], shift);
                        } else {
                            assert(ubelow(n2, l2, r, m + 1, e, p) == ubelow(n0, l0, r, m + 1, e, p));
                            lemma_bump(ubelow(n0, l0, r, m + 1, e, p), l0[r], shift);
                        }
                    }
                }
            }
        }
    }

    /// Whether some position of `[start, end]` under `node` has a mask that
    /// meets `k`. No mask changes.
    fn is_there(&mut self, start: usize, end: usize, k: u128, node: usize, Ghost(s): Ghost<int>, Ghost(e): Ghost<int>) -> (r: bool)
        requires
            start <= end,
            old(self).nodes.len() == old(self).lazy_nodes.len(),
            shifts_bounded(old(self).lazy_nodes@),
            shaped(ulinks(old(self).nodes@), node as int, s, e),
            or_ok(old(self).nodes@, old(self).lazy_nodes@, node as int, s, e),
        ensures
            final(self).nodes.len() == final(self).lazy_nodes.len(),
            shifts_bounded(final(self).lazy_nodes@),
            ulinks(final(self).nodes@) == ulinks(old(self).nodes@),
            forall|j: int|
                0 <= j < old(self).nodes.len() && !(node <= j < node + span(s, e)) ==> #[trigger] final(self).nodes@[j]
                    == old(self).nodes@[j],
            forall|j: int|
                0 <= j < old(self).nodes.len() && !(node <= j < node + span(s, e)) ==> #[trigger] final(self).lazy_nodes@[j]
                    == old(self).lazy_nodes@[j],
            or_ok(final(self).nodes@, final(self).lazy_nodes@, node as int, s, e),
            final(self).lazy_nodes@[node as int] == 0,
            uflushed(final(self).nodes@, final(self).lazy_nodes@, node as int) == uflushed(
                old(self).nodes@,
                old(self).lazy_nodes@,
                node as int,
            ),
            forall|p: int|
                #[trigger] mask_at(final(self).nodes@, final(self).lazy_nodes@, node as int, s, e, p)
                    == mask_at(old(self).nodes@, old(self).lazy_nodes@, node as int, s, e, p),
            r == meets(old(self).nodes@, old(self).lazy_nodes@, node as int, s, e, start as int, end as int, k),
        decreases e - s,
    {
        self.update_node(node, Ghost(s), Ghost(e));
        let ghost n1 = self.nodes@;
        let ghost l1 = self.lazy_nodes@;
        proof {
            if s < e {
                lemma_split(node as int, s, e);
            }
            assert(ulinks(n1)[node as int] == (
                n1[node as int].range.start,
                n1[node as int].range.end,
                n1[node as int].id_left,
                n1[node as int].id_right,
            ));
            assert forall|p: int|
                #[trigger] mask_at(n1, l1, node as int, s, e, p) == ubelow(n1, l1, node as int, s, e, p) by {}
        }
        let range = self.nodes[node].range;
        if range.start > end || range.end < start {
            return false;
        }
        if range.start >= start && range.end <= end {
            proof {
                lemma_top(n1, l1, node as int, s, e, k);
                if n1[node as int].key & k != 0 {
                    let w = choose|p: int| s <= p <= e && #[trigger] ubelow(n1, l1, node as int, s, e, p) & k != 0;
                    assert(mask_at(n1, l1, node as int, s, e, w) == ubelow(n1, l1, node as int, s, e, w));
                    assert(mask_at(old(self).nodes@, old(self).lazy_nodes@, node as int, s, e, w) & k != 0);
                } else {
                    assert forall|p: int| start <= p <= end && s <= p <= e implies !(#[trigger] mask_at(
                        old(self).nodes@,
                        old(self).lazy_nodes@,
                        node as int,
                        s,
                        e,
                        p,
                    ) & k != 0) by {
                        assert(mask_at(n1, l1, node as int, s, e, p) == ubelow(n1, l1, node as int, s, e, p));
                    }
                }
            }
            return self.nodes[node].key & k != 0;
        }
        let left_id = match self.nodes[node].id_left {
            Some(id) => id,
            None => 0,
        };
        let right_id = match self.nodes[node].id_right {
            Some(id) => id,
            None => 0,
        };
        let ghost m = mid(s, e);
        let left_overlap = self.is_there(start, end, k, left_id, Ghost(s), Ghost(m));
        let ghost n2 = self.nodes@;
        let ghost l2 = self.lazy_nodes@;
        proof {
            lemma_frame(n1, l1, n2, l2, right_of(node as int, s, e), m + 1, e);
        }
        let right_overlap = self.is_there(start, end, k, right_id, Ghost(m + 1), Ghost(e));
        let ghost n3 = self.nodes@;
        let ghost l3 = self.lazy_nodes@;
        let l = Ghost(left_of(node as int));
        let r = Ghost(right_of(node as int, s, e));
        proof {
            lemma_frame(n2, l2, n3, l3, l@, s, m);
            assert(l3[node as int] == 0);
            assert(n3[l@] == n2[l@]);
            assert(l3[l@] == l2[l@]);
            assert(n2[r@] == n1[r@]);
            assert(l2[r@] == l1[r@]);
            assert forall|p: int| #[trigger] mask_at(n1, l1, node as int, s, e, p) == (if p <= m {
                mask_at(n2, l2, l@, s, m, p)
            } else {
                mask_at(n2, l2, r@, m + 1, e, p)
            }) by {
                lemma_unfold(n1, l1, node as int, s, e, p);
            }
            assert forall|p: int| #[trigger] mask_at(n3, l3, node as int, s, e, p) == mask_at(n1, l1, node as int, s, e, p) by {
                lemma_unfold(n1, l1, node as int, s, e, p);
                lemma_unfold(n3, l3, node as int, s, e, p);
            }
            let n0 = old(self).nodes@;
            let z0 = old(self).lazy_nodes@;
            if left_overlap {
                let w = choose|p: int| start <= p <= end && s <= p <= m && #[trigger] mask_at(n1, l1, l@, s, m, p) & k != 0;
                assert(mask_at(n1, l1, node as int, s, e, w) == mask_at(n1, l1, l@, s, m, w));
                assert(mask_at(n0, z0, node as int, s, e, w) & k != 0);
            } else if right_overlap {
                let w = choose|p: int| start <= p <= end && m + 1 <= p <= e && #[trigger] mask_at(n2, l2, r@, m + 1, e, p) & k != 0;
                assert(mask_at(n1, l1, node as int, s, e, w) == mask_at(n2, l2, r@, m + 1, e, w));
                assert(mask_at(n0, z0, node as int, s, e, w) & k != 0);
            } else {
                assert forall|p: int| start <= p <= end && s <= p <= e implies !(#[trigger] mask_at(n0, z0, node as int, s, e, p) & k != 0) by {
                    assert(mask_at(n0, z0, node as int, s, e, p) == mask_at(n1, l1, node as int, s, e, p));
                    if p <= m {
                        assert(!(mask_at(n1, l1, l@, s, m, p) & k != 0));
                    } else {
                        assert(!(mask_at(n2, l2, r@, m + 1, e, p) & k != 0));
                    }
                }
            }
        }
        right_overlap || left_overlap
    }

    /// Raises by one the hit-count of every position of `[start, end]` under
    /// `node`, and returns the new mask of `node`.
    fn update(&mut self, start: usize, end: usize, node: usize, Ghost(s): Ghost<int>, Ghost(e): Ghost<int>) -> (r: u128)
        requires
            start <= end,
            old(self).nodes.len() == old(self).lazy_nodes.len(),
            shifts_bounded(old(self).lazy_nodes@),
            shaped(ulinks(old(self).nodes@), node as int, s, e),
            or_ok(old(self).nodes@, old(self).lazy_nodes@, node as int, s, e),
        ensures
            final(self).nodes.len() == final(self).lazy_nodes.len(),
            shifts_bounded(final(self).lazy_nodes@),
            ulinks(final(self).nodes@) == ulinks(old(self).nodes@),
            forall|j: int|
                0 <= j < old(self).nodes.len() && !(node <= j < node + span(s, e)) ==> #[trigger] final(self).nodes@[j]
                    == old(self).nodes@[j],
            forall|j: int|
                0 <= j < old(self).nodes.len() && !(node <= j < node + span(s, e)) ==> #[trigger] final(self).lazy_nodes@[j]
                    == old(self).lazy_nodes@[j],
            or_ok(final(self).nodes@, final(self).lazy_nodes@, node as int, s, e),
            final(self).lazy_nodes@[node as int] == 0,
            r == final(self).nodes@[node as int].key,
            forall|p: int|
                #![trigger mask_at(final(self).nodes@, final(self).lazy_nodes@, node as int, s, e, p)]
                s <= p <= e ==> mask_at(final(self).nodes@, final(self).lazy_nodes@, node as int, s, e, p) == if start
                    <= p <= end {
                    shl(mask_at(old(self).nodes@, old(self).lazy_nodes@, node as int, s, e, p), 1)
                } else {
                    mask_at(old(self).nodes@, old(self).lazy_nodes@, node as int, s, e, p)
                },
        decreases e - s,
    {
        self.update_node(node, Ghost(s), Ghost(e));
        let ghost n1 = self.nodes@;
        let ghost l1 = self.lazy_nodes@;
        proof {
            if s < e {
                lemma_split(node as int, s, e);
            }
            assert(ulinks(n1)[node as int] == (
                n1[node as int].range.start,
                n1[node as int].range.end,
                n1[node as int].id_left,
                n1[node as int].id_right,
            ));
        }
        let range = self.nodes[node].range;
        // No overlap
        if range.start > end || range.end < start {
            return self.nodes[node].key;
        }
        // Full containment
        if range.start >= start && range.end <= end {
            let mut current = self.nodes[node];
            current.key = current.key << 1u128;
            self.nodes.set(node, current);
            proof {
                assert(ulinks(self.nodes@) =~= ulinks(n1));
            }
            self.propagate(node, 1, Ghost(s), Ghost(e));
            proof {
                let n2 = self.nodes@;
                let l2 = self.lazy_nodes@;
                if s >= e {
                    assert(mask_at(n2, l2, node as int, s, e, s) == shl(mask_at(n1, l1, node as int, s, e, s), 1));
                } else {
                    let l = left_of(node as int);
                    let r = right_of(node as int, s, e);
                    let m = mid(s, e);
                    lemma_frame(n1, l1, n2, l2, l, s, m);
                    lemma_frame(n1, l1, n2, l2, r, m + 1, e);
                    lemma_bump(n1[l].key, l1[l], 1);
                    lemma_bump(n1[r].key, l1[r], 1);
                    lemma_shl_or(uflushed(n1, l1, l), uflushed(n1, l1, r), 1);
                    assert forall|p: int| s <= p <= e implies #[trigger] mask_at(n2, l2, node as int, s, e, p) == shl(
                        mask_at(n1, l1, node as int, s, e, p),
                        1,
                    ) by {
                        lemma_unfold(n1, l1, node as int, s, e, p);
                        if p <= m {
                            assert(ubelow(n2, l2, l, s, m, p) == ubelow(n1, l1, l, s, m, p));
                            lemma_bump(ubelow(n1, l1, l, s, m, p), l1[l], 1);
                        } else {
                            assert(ubelow(n2, l2, r, m + 1, e, p) == ubelow(n1, l1, r, m + 1, e, p));
                            lemma_bump(ubelow(n1, l1, r, m + 1, e, p), l1[r], 1);
                        }
                    }
                }
            }
            return self.nodes[node].key;
        }
        // Partial overlap
        let left_id = match self.nodes[node].id_left {
            Some(id) => id,
            None => 0,
        };
        let right_id = match self.nodes[node].id_right {
            Some(id) => id,
            None => 0,
        };
        let ghost m = mid(s, e);
        let left_overlap = self.update(start, end, left_id, Ghost(s), Ghost(m));
        let ghost n2 = self.nodes@;
        let ghost l2 = self.lazy_nodes@;
        proof {
            lemma_frame(n1, l1, n2, l2, right_of(node as int, s, e), m + 1, e);
        }
        let right_overlap = self.update(start, end, right_id, Ghost(m + 1), Ghost(e));
        let ghost n3 = self.nodes@;
        let ghost l3 = self.lazy_nodes@;
        let mut current = self.nodes[node];
        current.key = right_overlap | left_overlap;
        self.nodes.set(node, current);
        proof {
            let n4 = self.nodes@;
            let l4 = self.lazy_nodes@;
            let l = left_of(node as int);
            let r = right_of(node as int, s, e);
            assert(ulinks(n4) =~= ulinks(n3));
            lemma_frame(n2, l2, n4, l4, l, s, m);
            lemma_frame(n3, l3, n4, l4, r, m + 1, e);
            assert(right_overlap | left_overlap == left_overlap | right_overlap) by (bit_vector);
            assert forall|p: int| s <= p <= e implies #[trigger] mask_at(n4, l4, node as int, s, e, p) == if start
                <= p <= end {
                shl(mask_at(n1, l1, node as int, s, e, p), 1)
            } else {
                mask_at(n1, l1, node as int, s, e, p)
            } by {
                lemma_unfold(n1, l1, node as int, s, e, p);
                lemma_unfold(n4, l4, node as int, s, e, p);
                if p <= m {
                    assert(ubelow(n4, l4, l, s, m, p) == ubelow(n2, l2, l, s, m, p));
                    assert(l4[l] == l2[l]);
                    assert(mask_at(n4, l4, l, s, m, p) == mask_at(n2, l2, l, s, m, p));
                } else {
                    assert(ubelow(n4, l4, r, m + 1, e, p) == ubelow(n3, l3, r, m + 1, e, p));
                    assert(ubelow(n2, l2, r, m + 1, e, p) == ubelow(n1, l1, r, m + 1, e, p));
                    assert(l2[r] == l1[r]);
                    assert(mask_at(n4, l4, r, m + 1, e, p) == mask_at(n3, l3, r, m + 1, e, p));
                    assert(mask_at(n2, l2, r, m + 1, e, p) == mask_at(n1, l1, r, m + 1, e, p));
                }
            }
        }
        right_overlap | left_overlap
    }

    /// Adds the shift `t` to the pending shifts of both children of `node`,
    /// if it has any, keeping each at most at the width.
    fn propagate(&mut self, node: usize, t: u128, Ghost(s): Ghost<int>, Ghost(e): Ghost<int>)
        requires
            old(self).nodes.len() == old(self).lazy_nodes.len(),
            shifts_bounded(old(self).lazy_nodes@),
            t <= WIDTH,
            shaped(ulinks(old(self).nodes@), node as int, s, e),
        ensures
            final(self).nodes == old(self).nodes,
            s >= e ==> final(self).lazy_nodes@ == old(self).lazy_nodes@,
            s < e ==> final(self).lazy_nodes@ == old(self).lazy_nodes@.update(
                left_of(node as int),
                bump(old(self).lazy_nodes@[left_of(node as int)], t),
            ).update(
                right_of(node as int, s, e),
                bump(old(self).lazy_nodes@[right_of(node as int, s, e)], t),
            ),
            shifts_bounded(final(self).lazy_nodes@),
    {
        proof {
            assert(ulinks(self.nodes@)[node as int] == (
                self.nodes@[node as int].range.start,
                self.nodes@[node as int].range.end,
                self.nodes@[node as int].id_left,
                self.nodes@[node as int].id_right,
            ));
        }
        let left_id = match self.nodes[node].id_left {
            Some(id) => id,
            None => {
                return;
            },
        };
        let right_id = match self.nodes[node].id_right {
            Some(id) => id,
            None => {
                return;
            },
        };
        proof {
            lemma_split(node as int, s, e);
        }
        let left_shift = self.lazy_nodes[left_id];
        let new_left = if left_shift + t >= WIDTH { WIDTH } else { left_shift + t };
        self.lazy_nodes.set(left_id, new_left);
        let right_shift = self.lazy_nodes[right_id];
        let new_right = if right_shift + t >= WIDTH { WIDTH } else { right_shift + t };
        self.lazy_nodes.set(right_id, new_right);
    }
}


/// Node `j` holds the bitwise or of its children's flushed masks, if it has children.
pub open spec fn ucombines(nodes: Seq<URangeNode>, lazy: Seq<u128>, j: int) -> bool {
    match (nodes[j].id_left, nodes[j].id_right) {
        (Some(l), Some(r)) => nodes[j].key == uflushed(nodes, lazy, l as int) | uflushed(nodes, lazy, r as int),
        _ => true,
    }
}

proof fn lemma_all_combine(nodes: Seq<URangeNode>, lazy: Seq<u128>, i: int, s: int, e: int)
    requires
        shaped(ulinks(nodes), i, s, e),
        or_ok(nodes, lazy, i, s, e),
        nodes.len() <= usize::MAX,
    ensures
        forall|j: int| i <= j < i + span(s, e) ==> #[trigger] ucombines(nodes, lazy, j),
    decreases e - s,
{
    assert(ulinks(nodes)[i] == (nodes[i].range.start, nodes[i].range.end, nodes[i].id_left, nodes[i].id_right));
    if s < e {
        lemma_split(i, s, e);
        lemma_all_combine(nodes, lazy, left_of(i), s, mid(s, e));
        lemma_all_combine(nodes, lazy, right_of(i, s, e), mid(s, e) + 1, e);
        assert(nodes[i].id_left == Some(left_of(i) as usize));
        assert(nodes[i].id_right == Some(right_of(i, s, e) as usize));
    }
    assert(ucombines(nodes, lazy, i));
}

impl IsThere {
    /// Every node of the arena with children holds the bitwise or of their
    /// masks, each taken after the child's own pending shift.
    pub closed spec fn all_combine(&self) -> bool {
        forall|j: int| 0 <= j < self.nodes.len() ==> #[trigger] ucombines(self.nodes@, self.lazy_nodes@, j)
    }

    /// In a well-formed engine, which every constructor and operation leaves
    /// behind, each internal node's mask is the bitwise or of its two
    /// children's flushed masks.
    pub proof fn lemma_aggregate_invariant(&self)
        requires
            self.wf(),
        ensures
            self.all_combine(),
    {
        lemma_all_combine(self.nodes@, self.lazy_nodes@, 0, 0, self.size() - 1);
    }
}

/// Number of ranges in `ranges` that hold position `p`.
pub open spec fn hits(ranges: Seq<(int, int)>, p: int) -> nat
    decreases ranges.len(),
{
    if ranges.len() == 0 {
        0
    } else {
        let last = ranges.last();
        hits(ranges.drop_last(), p) + if last.0 <= p <= last.1 {
            1nat
        } else {
            0nat
        }
    }
}

/// The hit masks of `n` positions after one increment over each range of
/// `ranges`, in order, starting from hit-count zero everywhere.
pub open spec fn run(n: nat, ranges: Seq<(int, int)>) -> Seq<u128>
    decreases ranges.len(),
{
    if ranges.len() == 0 {
        Seq::new(n, |p: int| 1u128)
    } else {
        bumped(run(n, ranges.drop_last()), ranges.last().0, ranges.last().1)
    }
}

proof fn lemma_run_mask(n: nat, ranges: Seq<(int, int)>, p: int)
    requires
        0 <= p < n,
    ensures
        run(n, ranges).len() == n,
        run(n, ranges)[p] == shl(1u128, hits(ranges, p) as int),
    decreases ranges.len(),
{
    if ranges.len() > 0 {
        lemma_run_mask(n, ranges.drop_last(), p);
        lemma_shl_shl(1u128, hits(ranges.drop_last(), p) as int, 1);
    }
}

/// After a run of increments, a position has hit-count `j` exactly when `j`
/// is the number of increments that covered it, up to the mask's width.
pub proof fn lemma_hit_count(n: nat, ranges: Seq<(int, int)>, p: int, j: int)
    requires
        0 <= p < n,
        hits(ranges, p) < WIDTH,
        0 <= j < WIDTH,
    ensures
        has_count(run(n, ranges)[p], j) <==> j == hits(ranges, p),
{
    lemma_run_mask(n, ranges, p);
    let c = hits(ranges, p) as u128;
    let jj = j as u128;
    bv_single_bits(c, jj);
    assert(1u128 << 0u128 == 1u128) by (bit_vector);
}

} // verus!
