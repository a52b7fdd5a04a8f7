use vstd::prelude::*;
use crate::segment::{Range, Link, span, mid, left_of, right_of, shaped, lemma_split, lemma_shape_frame, disjoint};

verus! {

/// A node of the max arena: the largest value of its interval, and the
/// arena indices of its two children (both absent for a leaf).
#[derive(Clone, Copy)]
pub struct RangeNode {
    pub key: i32,
    pub range: Range,
    pub id_left: Option<usize>,
    pub id_right: Option<usize>,
}

impl RangeNode {
    fn new(key: i32, range: Range) -> (r: RangeNode)
        ensures
            r.key == key,
            r.range == range,
            r.id_left is None,
            r.id_right is None,
    {
        RangeNode { key, range, id_left: None, id_right: None }
    }

    /// A copy of this node's value and interval, detached from any children.
    pub fn clone_node(&self) -> (r: RangeNode)
        ensures
            r.key == self.key,
            r.range == self.range,
            r.id_left is None,
            r.id_right is None,
    {
        RangeNode::new(self.key, Range::new(self.range.start, self.range.end))
    }
}

pub open spec fn links(nodes: Seq<RangeNode>) -> Seq<Link> {
    nodes.map_values(|n: RangeNode| (n.range.start, n.range.end, n.id_left, n.id_right))
}

pub open spec fn larger(a: int, b: int) -> int {
    if a < b { b } else { a }
}

/// `v` lowered to the pending ceiling `c`, if there is one.
pub open spec fn clamp(v: int, c: Option<i32>) -> int {
    match c {
        Some(t) => if (t as int) < v { t as int } else { v },
        None => v,
    }
}

/// The pending ceiling `c` combined with a new ceiling `t`: the lower one wins.
pub open spec fn tighten(c: Option<i32>, t: i32) -> Option<i32> {
    match c {
        Some(u) => if u < t { Some(u) } else { Some(t) },
        None => Some(t),
    }
}

/// The aggregate of node `i` once its own pending ceiling is applied.
pub open spec fn flushed(nodes: Seq<RangeNode>, lazy: Seq<Option<i32>>, i: int) -> int {
    clamp(nodes[i].key as int, lazy[i])
}

/// The value at position `p` in the subtree at `i` over `[s, e]`, with the
/// pending ceilings of all nodes under `i` applied, but not the one of `i`.
pub open spec fn below(nodes: Seq<RangeNode>, lazy: Seq<Option<i32>>, i: int, s: int, e: int, p: int) -> int
    decreases e - s,
{
    if s >= e {
        nodes[i].key as int
    } else if p <= mid(s, e) {
        clamp(below(nodes, lazy, left_of(i), s, mid(s, e), p), lazy[left_of(i)])
    } else {
        clamp(below(nodes, lazy, right_of(i, s, e), mid(s, e) + 1, e, p), lazy[right_of(i, s, e)])
    }
}

/// The value at position `p` in the subtree at `i` over `[s, e]`, every
/// pending ceiling on the way applied.
pub open spec fn value_at(nodes: Seq<RangeNode>, lazy: Seq<Option<i32>>, i: int, s: int, e: int, p: int) -> int {
    clamp(below(nodes, lazy, i, s, e, p), lazy[i])
}

/// Every internal node under `i` holds the larger of its children's
/// aggregates, each taken after the child's own pending ceiling.
pub open spec fn agg_ok(nodes: Seq<RangeNode>, lazy: Seq<Option<i32>>, i: int, s: int, e: int) -> bool
    decreases e - s,
{
    if s >= e {
        true
    } else {
        &&& agg_ok(nodes, lazy, left_of(i), s, mid(s, e))
        &&& agg_ok(nodes, lazy, right_of(i, s, e), mid(s, e) + 1, e)
        &&& nodes[i].key as int == larger(
            flushed(nodes, lazy, left_of(i)),
            flushed(nodes, lazy, right_of(i, s, e)),
        )
    }
}

/// `v` is the largest of `vals[lo..=hi]`.
pub open spec fn is_max_of(vals: Seq<int>, lo: int, hi: int, v: int) -> bool {
    &&& forall|p: int| lo <= p <= hi ==> #[trigger] vals[p] <= v
    &&& exists|p: int| lo <= p <= hi && #[trigger] vals[p] == v
}

/// `vals` with every value in `[lo, hi]` lowered to at most `t`.
pub open spec fn clamped(vals: Seq<int>, lo: int, hi: int, t: int) -> Seq<int> {
    Seq::new(vals.len(), |p: int| if lo <= p <= hi && t < vals[p] { t } else { vals[p] })
}

/// `v` is the largest value at a position of `[lo, hi]` inside the subtree at `i`.
pub open spec fn top_over(
    nodes: Seq<RangeNode>,
    lazy: Seq<Option<i32>>,
    i: int,
    s: int,
    e: int,
    lo: int,
    hi: int,
    v: int,
) -> bool {
    &&& forall|p: int| lo <= p <= hi && s <= p <= e ==> #[trigger] value_at(nodes, lazy, i, s, e, p) <= v
    &&& exists|p: int| lo <= p <= hi && s <= p <= e && #[trigger] value_at(nodes, lazy, i, s, e, p) == v
}

/// The aggregate of a well-formed subtree is the largest value below it.
proof fn lemma_top(nodes: Seq<RangeNode>, lazy: Seq<Option<i32>>, i: int, s: int, e: int)
    requires
        shaped(links(nodes), i, s, e),
        agg_ok(nodes, lazy, i, s, e),
    ensures
        forall|p: int| s <= p <= e ==> #[trigger] below(nodes, lazy, i, s, e, p) <= nodes[i].key,
        exists|p: int| s <= p <= e && #[trigger] below(nodes, lazy, i, s, e, p) == nodes[i].key,
        top_over(nodes, lazy, i, s, e, s, e, flushed(nodes, lazy, i)),
    decreases e - s,
{
    if s >= e {
        assert(below(nodes, lazy, i, s, e, s) == nodes[i].key);
        assert(value_at(nodes, lazy, i, s, e, s) == flushed(nodes, lazy, i));
    } else {
        lemma_split(i, s, e);
        let l = left_of(i);
        let r = right_of(i, s, e);
        let m = mid(s, e);
        lemma_top(nodes, lazy, l, s, m);
        lemma_top(nodes, lazy, r, m + 1, e);
        assert forall|p: int| s <= p <= e implies #[trigger] below(nodes, lazy, i, s, e, p) <= nodes[i].key by {
            if p <= m {
                assert(below(nodes, lazy, l, s, m, p) <= nodes[l].key);
            } else {
                assert(below(nodes, lazy, r, m + 1, e, p) <= nodes[r].key);
            }
        }
        if flushed(nodes, lazy, l) >= flushed(nodes, lazy, r) {
            let q = choose|q: int| s <= q <= m && #[trigger] below(nodes, lazy, l, s, m, q) == nodes[l].key;
            assert(below(nodes, lazy, i, s, e, q) == nodes[i].key);
        } else {
            let q = choose|q: int| m + 1 <= q <= e && #[trigger] below(nodes, lazy, r, m + 1, e, q) == nodes[r].key;
            assert(below(nodes, lazy, i, s, e, q) == nodes[i].key);
        }
    }
    let w = choose|q: int| s <= q <= e && #[trigger] below(nodes, lazy, i, s, e, q) == nodes[i].key;
    assert(value_at(nodes, lazy, i, s, e, w) == flushed(nodes, lazy, i));
    assert forall|p: int| s <= p <= e implies #[trigger] value_at(nodes, lazy, i, s, e, p) <= flushed(nodes, lazy, i) by {
        assert(below(nodes, lazy, i, s, e, p) <= nodes[i].key);
    }
}

/// A subtree's values and aggregates depend only on its own slots (the
/// pending ceiling of its root aside, for `below` and `agg_ok`).
proof fn lemma_frame(
    n1: Seq<RangeNode>,
    l1: Seq<Option<i32>>,
    n2: Seq<RangeNode>,
    l2: Seq<Option<i32>>,
    i: int,
    s: int,
    e: int,
)
    requires
        shaped(links(n1), i, s, e),
        forall|j: int| i <= j < i + span(s, e) ==> n1[j].key == n2[j].key,
        forall|j: int| i < j < i + span(s, e) ==> l1[j] == l2[j],
    ensures
        forall|p: int| below(n1, l1, i, s, e, p) == #[trigger] below(n2, l2, i, s, e, p),
        agg_ok(n1, l1, i, s, e) == agg_ok(n2, l2, i, s, e),
    decreases e - s,
{
    if s < e {
        lemma_split(i, s, e);
        lemma_frame(n1, l1, n2, l2, left_of(i), s, mid(s, e));
        lemma_frame(n1, l1, n2, l2, right_of(i, s, e), mid(s, e) + 1, e);
        assert forall|p: int| below(n1, l1, i, s, e, p) == #[trigger] below(n2, l2, i, s, e, p) by {
            if p <= mid(s, e) {
                assert(below(n1, l1, left_of(i), s, mid(s, e), p) == below(n2, l2, left_of(i), s, mid(s, e), p));
            } else {
                assert(below(n1, l1, right_of(i, s, e), mid(s, e) + 1, e, p) == below(
                    n2,
                    l2,
                    right_of(i, s, e),
                    mid(s, e) + 1,
                    e,
                    p,
                ));
            }
        }
    }
}


/// The value at `p` under an internal node is the value under the child that
/// holds `p`, lowered to the node's own pending ceiling.
proof fn lemma_unfold(nodes: Seq<RangeNode>, lazy: Seq<Option<i32>>, i: int, s: int, e: int, p: int)
    requires
        s < e,
    ensures
        value_at(nodes, lazy, i, s, e, p) == clamp(
            if p <= mid(s, e) {
                value_at(nodes, lazy, left_of(i), s, mid(s, e), p)
            } else {
                value_at(nodes, lazy, right_of(i, s, e), mid(s, e) + 1, e, p)
            },
            lazy[i],
        ),
{
}

/// An arena with no pending ceiling anywhere.
pub open spec fn no_pending(len: nat) -> Seq<Option<i32>> {
    Seq::new(len, |j: int| None::<i32>)
}

/// Appends to `nodes` the subtree over `[start, end]` of `arr`, laid out
/// depth-first from the current end of `nodes`, and returns its maximum.
fn tree_init(arr: &Vec<i32>, start: usize, end: usize, nodes: &mut Vec<RangeNode>) -> (r: i32)
    requires
        start <= end < arr.len(),
        old(nodes).len() + span(start as int, end as int) <= usize::MAX,
    ensures
        final(nodes).len() == old(nodes).len() + span(start as int, end as int),
        final(nodes)@.subrange(0, old(nodes).len() as int) == old(nodes)@,
        shaped(links(final(nodes)@), old(nodes).len() as int, start as int, end as int),
        agg_ok(final(nodes)@, no_pending(final(nodes).len() as nat), old(nodes).len() as int, start as int, end as int),
        r == final(nodes)@[old(nodes).len() as int].key,
        forall|p: int|
            start <= p <= end ==> #[trigger] below(
                final(nodes)@,
                no_pending(final(nodes).len() as nat),
                old(nodes).len() as int,
                start as int,
                end as int,
                p,
            ) == arr@[p],
    decreases end - start,
{
    let i = nodes.len();
    if start == end {
        nodes.push(RangeNode::new(arr[start], Range::new(start, end)));
        proof {
            assert(links(nodes@)[i as int] == (start, end, None::<usize>, None::<usize>));
            assert(nodes@.subrange(0, i as int) =~= old(nodes)@);
        }
        return arr[start];
    }
    let m = start + (end - start) / 2;
    proof {
        lemma_split(i as int, start as int, end as int);
        assert(m == mid(start as int, end as int));
    }
    let right = i + 2 * (m - start + 1);
    nodes.push(
        RangeNode {
            key: 0,
            range: Range::new(start, end),
            id_left: Some(i + 1),
            id_right: Some(right),
        },
    );
    let ghost n0 = nodes@;
    let left_max = tree_init(arr, start, m, nodes);
    let ghost n1 = nodes@;
    let right_max = tree_init(arr, m + 1, end, nodes);
    let ghost n2 = nodes@;
    let top = if left_max < right_max { right_max } else { left_max };
    let mut node = nodes[i];
    node.key = top;
    nodes.set(i, node);
    proof {
        let len = nodes.len() as nat;
        let l = i + 1;
        assert(n1.subrange(0, l as int) == n0);
        assert(n2.subrange(0, right as int) == n1);
        assert(nodes@.subrange(0, i as int) =~= old(nodes)@) by {
            assert forall|j: int| 0 <= j < i implies nodes@[j] == old(nodes)@[j] by {
                assert(n0[j] == n1[j]);
                assert(n1[j] == n2[j]);
            }
        }
        assert forall|j: int| l <= j < right implies #[trigger] nodes@[j] == n1[j] by {
            assert(n1[j] == n2.subrange(0, right as int)[j]);
        }
        assert forall|j: int| right <= j < nodes.len() implies #[trigger] nodes@[j] == n2[j] by {}
        lemma_shape_frame(links(n1), links(nodes@), l as int, start as int, m as int);
        lemma_shape_frame(links(n2), links(nodes@), right as int, m + 1, end as int);
        lemma_frame(n1, no_pending(n1.len()), nodes@, no_pending(len), l as int, start as int, m as int);
        lemma_frame(n2, no_pending(n2.len()), nodes@, no_pending(len), right as int, m + 1, end as int);
        assert(n0[i as int] == n1[i as int]);
        assert(links(nodes@)[i as int] == (start, end, Some((i + 1) as usize), Some(right)));
        assert forall|p: int| start <= p <= end implies #[trigger] below(
            nodes@,
            no_pending(len),
            i as int,
            start as int,
            end as int,
            p,
        ) == arr@[p] by {
            assert(no_pending(len)[l as int] is None);
            assert(no_pending(len)[right as int] is None);
            if p <= m {
                assert(below(n1, no_pending(n1.len()), l as int, start as int, m as int, p) == arr@[p]);
                assert(below(nodes@, no_pending(len), l as int, start as int, m as int, p) == arr@[p]);
            } else {
                assert(below(n2, no_pending(n2.len()), right as int, m + 1, end as int, p) == arr@[p]);
                assert(below(nodes@, no_pending(len), right as int, m + 1, end as int, p) == arr@[p]);
            }
        }
    }
    top
}

/// The max engine: a depth-first arena of range nodes and, beside it, one
/// pending ceiling per node.
pub struct MinMax {
    nodes: Vec<RangeNode>,
    lazy_nodes: Vec<Option<i32>>,
}

impl View for MinMax {
    type V = Seq<int>;

    /// The value at each position, every pending ceiling applied.
    closed spec fn view(&self) -> Seq<int> {
        Seq::new(
            self.size(),
            |p: int| value_at(self.nodes@, self.lazy_nodes@, 0, 0, self.size() - 1, p),
        )
    }
}

impl MinMax {
    /// Number of positions.
    pub closed spec fn size(&self) -> nat {
        ((self.nodes.len() + 1) / 2) as nat
    }

    /// The arena holds one tree over all positions, every internal node
    /// holding the larger of its children's flushed aggregates.
    pub closed spec fn wf(&self) -> bool {
        &&& self.nodes.len() == self.lazy_nodes.len()
        &&& self.nodes.len() == 2 * self.size() - 1
        &&& self.size() >= 1
        &&& shaped(links(self.nodes@), 0, 0, self.size() - 1)
        &&& agg_ok(self.nodes@, self.lazy_nodes@, 0, 0, self.size() - 1)
    }

    /// Builds the engine over `arr`, one position per element.
    pub fn new(arr: Vec<i32>) -> (r: Self)
        requires
            0 < arr.len() <= usize::MAX / 2,
        ensures
            r.wf(),
            r@ == arr@.map_values(|x: i32| x as int),
    {
        let n = arr.len();
        let mut seg_tree: Vec<RangeNode> = Vec::new();
        tree_init(&arr, 0, n - 1, &mut seg_tree);
        let total = seg_tree.len();
        let mut lazy_tree: Vec<Option<i32>> = Vec::new();
        let mut j: usize = 0;
        while j < total
            invariant
                j <= total,
                lazy_tree@ =~= no_pending(j as nat),
            decreases total - j,
        {
            lazy_tree.push(None);
            j = j + 1;
        }
        let r = MinMax { nodes: seg_tree, lazy_nodes: lazy_tree };
        proof {
            assert(r.size() == n);
            assert(r@ =~= arr@.map_values(|x: i32| x as int));
        }
        r
    }

    /// Number of positions.
    pub fn len(&self) -> (r: usize)
        requires
            self.wf(),
        ensures
            r == self@.len(),
    {
        (self.nodes.len() - 1) / 2 + 1
    }

    /// The largest value over the 1-indexed positions `start..=end`.
    pub fn query_max(&mut self, start: usize, end: usize) -> (r: i32)
        requires
            old(self).wf(),
            1 <= start <= end <= old(self)@.len(),
        ensures
            final(self).wf(),
            final(self)@ == old(self)@,
            is_max_of(old(self)@, start - 1, end - 1, r as int),
    {
        let ghost n = self.size() as int;
        let found = self.max(start - 1, end - 1, 0, Ghost(0), Ghost(n - 1));
        proof {
            assert(self.size() == n);
            assert(self@ =~= old(self)@);
        }
        match found {
            Some(v) => {
                proof {
                    let w = choose|p: int|
                        start - 1 <= p <= end - 1 && 0 <= p <= n - 1 && #[trigger] value_at(
                            old(self).nodes@,
                            old(self).lazy_nodes@,
                            0,
                            0,
                            n - 1,
                            p,
                        ) == v;
                    assert(old(self)@[w] == v);
                    assert forall|p: int| start - 1 <= p <= end - 1 implies #[trigger] old(self)@[p] <= v by {
                        assert(value_at(old(self).nodes@, old(self).lazy_nodes@, 0, 0, n - 1, p) <= v);
                    }
                }
                v
            },
            None => 0,
        }
    }

    /// Lowers every value over the 1-indexed positions `start..=end` to at most `t`.
    pub fn update_clamp(&mut self, start: usize, end: usize, t: i32)
        requires
            old(self).wf(),
            1 <= start <= end <= old(self)@.len(),
        ensures
            final(self).wf(),
            final(self)@ == clamped(old(self)@, start - 1, end - 1, t as int),
    {
        let ghost n = self.size() as int;
        self.update(start - 1, end - 1, t, 0, Ghost(0), Ghost(n - 1));
        proof {
            assert(self.size() == n);
            assert(self@ =~= clamped(old(self)@, start - 1, end - 1, t as int));
        }
    }

    /// Runs one request: `query == 0` first lowers the values over the
    /// 1-indexed positions `start..=end` to at most `t`; any request then
    /// answers the largest value over those positions.
    pub fn query(&mut self, query: usize, start: usize, end: usize, t: i32) -> (r: Option<i32>)
        requires
            old(self).wf(),
            1 <= start <= end <= old(self)@.len(),
        ensures
            final(self).wf(),
            final(self)@ == if query == 0 {
                clamped(old(self)@, start - 1, end - 1, t as int)
            } else {
                old(self)@
            },
            r matches Some(v) && is_max_of(final(self)@, start - 1, end - 1, v as int),
    {
        if query == 0 {
            self.update_clamp(start, end, t);
        }
        Some(self.query_max(start, end))
    }

    /// Applies the pending ceiling of `node` to its aggregate, hands it down to
    /// its children, and clears it. No value changes.
    fn update_node(&mut self, node: usize, Ghost(s): Ghost<int>, Ghost(e): Ghost<int>)
        requires
            old(self).nodes.len() == old(self).lazy_nodes.len(),
            shaped(links(old(self).nodes@), node as int, s, e),
            agg_ok(old(self).nodes@, old(self).lazy_nodes@, node as int, s, e),
        ensures
            final(self).nodes.len() == final(self).lazy_nodes.len(),
            links(final(self).nodes@) == links(old(self).nodes@),
            forall|j: int|
                0 <= j < old(self).nodes.len() && !(node <= j < node + span(s, e)) ==> #[trigger] final(self).nodes@[j]
                    == old(self).nodes@[j],
            forall|j: int|
                0 <= j < old(self).nodes.len() && !(node <= j < node + span(s, e)) ==> #[trigger] final(self).lazy_nodes@[j]
                    == old(self).lazy_nodes@[j],
            agg_ok(final(self).nodes@, final(self).lazy_nodes@, node as int, s, e),
            final(self).lazy_nodes@[node as int] is None,
            flushed(final(self).nodes@, final(self).lazy_nodes@, node as int) == flushed(
                old(self).nodes@,
                old(self).lazy_nodes@,
                node as int,
            ),
            forall|p: int|
                #[trigger] value_at(final(self).nodes@, final(self).lazy_nodes@, node as int, s, e, p)
                    == value_at(old(self).nodes@, old(self).lazy_nodes@, node as int, s, e, p),
    {
        if let Some(new_val) = self.lazy_nodes[node] {
            let mut current = self.nodes[node];
            if new_val < current.key {
                current.key = new_val;
            }
            self.nodes.set(node, current);
            let ghost n1 = self.nodes@;
            proof {
                assert(links(n1) =~= links(old(self).nodes@));
            }
            self.propagate(node, new_val, Ghost(s), Ghost(e));
            self.lazy_nodes.set(node, None);
            proof {
                let n0 = old(self).nodes@;
                let l0 = old(self).lazy_nodes@;
                let n2 = self.nodes@;
                let l2 = self.lazy_nodes@;
                if s < e {
                    lemma_split(node as int, s, e);
                    let l = left_of(node as int);
                    let r = right_of(node as int, s, e);
                    let m = mid(s, e);
                    lemma_frame(n0, l0, n2, l2, l, s, m);
                    lemma_frame(n0, l0, n2, l2, r, m + 1, e);
                    assert forall|p: int|
                        #[trigger] value_at(n2, l2, node as int, s, e, p) == value_at(n0, l0, node as int, s, e, p) by {
                        if p <= m {
                            assert(below(n2, l2, l, s, m, p) == below(n0, l0, l, s, m, p));
                        } else {
                            assert(below(n2, l2, r, m + 1, e, p) == below(n0, l0, r, m + 1, e, p));
                        }
                    }
                }
            }
        }
    }

    /// The largest value at a position of `[start, end]` under `node`, or
    /// `None` where the two intervals do not meet. No value changes.
    fn max(&mut self, start: usize, end: usize, node: usize, Ghost(s): Ghost<int>, Ghost(e): Ghost<int>) -> (r: Option<i32>)
        requires
            start <= end,
            old(self).nodes.len() == old(self).lazy_nodes.len(),
            shaped(links(old(self).nodes@), node as int, s, e),
            agg_ok(old(self).nodes@, old(self).lazy_nodes@, node as int, s, e),
        ensures
            final(self).nodes.len() == final(self).lazy_nodes.len(),
            links(final(self).nodes@) == links(old(self).nodes@),
            forall|j: int|
                0 <= j < old(self).nodes.len() && !(node <= j < node + span(s, e)) ==> #[trigger] final(self).nodes@[j]
                    == old(self).nodes@[j],
            forall|j: int|
                0 <= j < old(self).nodes.len() && !(node <= j < node + span(s, e)) ==> #[trigger] final(self).lazy_nodes@[j]
                    == old(self).lazy_nodes@[j],
            agg_ok(final(self).nodes@, final(self).lazy_nodes@, node as int, s, e),
            final(self).lazy_nodes@[node as int] is None,
            flushed(final(self).nodes@, final(self).lazy_nodes@, node as int) == flushed(
                old(self).nodes@,
                old(self).lazy_nodes@,
                node as int,
            ),
            forall|p: int|
                #[trigger] value_at(final(self).nodes@, final(self).lazy_nodes@, node as int, s, e, p)
                    == value_at(old(self).nodes@, old(self).lazy_nodes@, node as int, s, e, p),
            r is None <==> disjoint(start as int, end as int, s, e),
            r matches Some(v) ==> top_over(
                old(self).nodes@,
                old(self).lazy_nodes@,
                node as int,
                s,
                e,
                start as int,
                end as int,
                v as int,
            ),
        decreases e - s,
    {
        self.update_node(node, Ghost(s), Ghost(e));
        let ghost n1 = self.nodes@;
        let ghost l1 = self.lazy_nodes@;
        proof {
            if s < e {
                lemma_split(node as int, s, e);
            }
        }
        proof {
            assert(links(n1)[node as int] == (
                n1[node as int].range.start,
                n1[node as int].range.end,
                n1[node as int].id_left,
                n1[node as int].id_right,
            ));
        }
        let range = self.nodes[node].range;
        if range.start > end || range.end < start {
            return None;
        }
        if range.start >= start && range.end <= end {
            proof {
                lemma_top(n1, l1, node as int, s, e);
                let w = choose|p: int| s <= p <= e && #[trigger] value_at(n1, l1, node as int, s, e, p) == flushed(n1, l1, node as int);
                assert(value_at(old(self).nodes@, old(self).lazy_nodes@, node as int, s, e, w) == self.nodes@[node as int].key);
                assert forall|p: int| start <= p <= end && s <= p <= e implies #[trigger] value_at(
                    old(self).nodes@,
                    old(self).lazy_nodes@,
                    node as int,
                    s,
                    e,
                    p,
                ) <= self.nodes@[node as int].key by {
                    assert(value_at(n1, l1, node as int, s, e, p) <= flushed(n1, l1, node as int));
                }
            }
            return Some(self.nodes[node].key);
        }
        proof {
            lemma_split(node as int, s, e);
        }
        let left_id = match self.nodes[node].id_left {
            Some(id) => id,
            None => 0,
        };
        let right_id = match self.nodes[node].id_right {
            Some(id) => id,
            None => 0,
        };
        let ghost m = mid(s, e);
        let max_left = self.max(start, end, left_id, Ghost(s), Ghost(m));
        let ghost n2 = self.nodes@;
        let ghost l2 = self.lazy_nodes@;
        proof {
            lemma_frame(n1, l1, n2, l2, right_of(node as int, s, e), m + 1, e);
        }
        let max_right = self.max(start, end, right_id, Ghost(m + 1), Ghost(e));
        let ghost n3 = self.nodes@;
        let ghost l3 = self.lazy_nodes@;
        let l = Ghost(left_of(node as int));
        let r = Ghost(right_of(node as int, s, e));
        proof {
            lemma_frame(n2, l2, n3, l3, l@, s, m);
            lemma_frame(n1, l1, n2, l2, r@, m + 1, e);
            assert(l3[node as int] is None);
            assert(n3[l@] == n2[l@]);
            assert(l3[l@] == l2[l@]);
            assert(n2[r@] == n1[r@]);
            assert(l2[r@] == l1[r@]);
            // each value under `node` is the value under the child that holds it
            assert forall|p: int| #[trigger] value_at(n1, l1, node as int, s, e, p) == (if p <= m {
                value_at(n2, l2, l@, s, m, p)
            } else {
                value_at(n2, l2, r@, m + 1, e, p)
            }) by {
                lemma_unfold(n1, l1, node as int, s, e, p);
            }
            assert forall|p: int| #[trigger] value_at(n3, l3, node as int, s, e, p) == value_at(n1, l1, node as int, s, e, p) by {
                lemma_unfold(n1, l1, node as int, s, e, p);
                lemma_unfold(n3, l3, node as int, s, e, p);
            }
            assert(!(max_left is None && max_right is None));
        }
        let result = match (max_left, max_right) {
            (None, None) => Some(self.nodes[node].key),
            (None, Some(_)) => max_right,
            (Some(_), None) => max_left,
            (Some(a), Some(b)) => if a < b { Some(b) } else { Some(a) },
        };
        proof {
            let n0 = old(self).nodes@;
            let z0 = old(self).lazy_nodes@;
            match result {
                Some(v) => {
                    assert forall|p: int| start <= p <= end && s <= p <= e implies #[trigger] value_at(n0, z0, node as int, s, e, p) <= v by {
                        assert(value_at(n0, z0, node as int, s, e, p) == value_at(n1, l1, node as int, s, e, p));
                        if p <= m {
                            assert(value_at(n1, l1, l@, s, m, p) <= v);
                        } else {
                            assert(value_at(n2, l2, r@, m + 1, e, p) <= v);
                        }
                    }
                    if max_left == Some(v) {
                        let w = choose|p: int| start <= p <= end && s <= p <= m && #[trigger] value_at(n1, l1, l@, s, m, p) == v;
                        assert(value_at(n1, l1, node as int, s, e, w) == v);
                        assert(value_at(n0, z0, node as int, s, e, w) == value_at(n1, l1, node as int, s, e, w));
                    } else {
                        assert(max_right == Some(v));
                        let w = choose|p: int| start <= p <= end && m + 1 <= p <= e && #[trigger] value_at(n2, l2, r@, m + 1, e, p) == v;
                        assert(value_at(n1, l1, node as int, s, e, w) == v);
                        assert(value_at(n0, z0, node as int, s, e, w) == value_at(n1, l1, node as int, s, e, w));
                    }
                },
                None => {},
            }
        }
        result
    }

    /// Lowers every value at a position of `[start, end]` under `node` to at
    /// most `t`, and returns the new aggregate of `node`.
    fn update(&mut self, start: usize, end: usize, t: i32, node: usize, Ghost(s): Ghost<int>, Ghost(e): Ghost<int>) -> (r: i32)
        requires
            start <= end,
            old(self).nodes.len() == old(self).lazy_nodes.len(),
            shaped(links(old(self).nodes@), node as int, s, e),
            agg_ok(old(self).nodes@, old(self).lazy_nodes@, node as int, s, e),
        ensures
            final(self).nodes.len() == final(self).lazy_nodes.len(),
            links(final(self).nodes@) == links(old(self).nodes@),
            forall|j: int|
                0 <= j < old(self).nodes.len() && !(node <= j < node + span(s, e)) ==> #[trigger] final(self).nodes@[j]
                    == old(self).nodes@[j],
            forall|j: int|
                0 <= j < old(self).nodes.len() && !(node <= j < node + span(s, e)) ==> #[trigger] final(self).lazy_nodes@[j]
                    == old(self).lazy_nodes@[j],
            agg_ok(final(self).nodes@, final(self).lazy_nodes@, node as int, s, e),
            final(self).lazy_nodes@[node as int] is None,
            r == final(self).nodes@[node as int].key,
            forall|p: int|
                #![trigger value_at(final(self).nodes@, final(self).lazy_nodes@, node as int, s, e, p)]
                s <= p <= e ==> value_at(final(self).nodes@, final(self).lazy_nodes@, node as int, s, e, p) == if start
                    <= p <= end {
                    clamp(value_at(old(self).nodes@, old(self).lazy_nodes@, node as int, s, e, p), Some(t))
                } else {
                    value_at(old(self).nodes@, old(self).lazy_nodes@, node as int, s, e, p)
                },
        decreases e - s,
    {
        self.update_node(node, Ghost(s), Ghost(e));
        let ghost n1 = self.nodes@;
        let ghost l1 = self.lazy_nodes@;
        proof {
            if s < e {
                lemma_split(node as int, s, e);
            }
        }
        proof {
            assert(links(n1)[node as int] == (
                n1[node as int].range.start,
                n1[node as int].range.end,
                n1[node as int].id_left,
                n1[node as int].id_right,
            ));
        }
        let range = self.nodes[node].range;
        // No overlap
        if range.start > end || range.end < start {
            return self.nodes[node].key;
        }
        // Full containment
        if range.start >= start && range.end <= end {
            let key = self.nodes[node].key;
            if key > t {
                let mut current = self.nodes[node];
                current.key = t;
                self.nodes.set(node, current);
                proof {
                    assert(links(self.nodes@) =~= links(n1));
                    if s < e {
                        lemma_split(node as int, s, e);
                    }
                }
                self.propagate(node, t, Ghost(s), Ghost(e));
                proof {
                    let n2 = self.nodes@;
                    let l2 = self.lazy_nodes@;
                    if s >= e {
                        assert(value_at(n2, l2, node as int, s, e, s) == t);
                        assert(value_at(n1, l1, node as int, s, e, s) == key);
                    } else {
                        let l = left_of(node as int);
                        let r = right_of(node as int, s, e);
                        let m = mid(s, e);
                        lemma_frame(n1, l1, n2, l2, l, s, m);
                        lemma_frame(n1, l1, n2, l2, r, m + 1, e);
                        assert forall|p: int| s <= p <= e implies #[trigger] value_at(n2, l2, node as int, s, e, p)
                            == clamp(value_at(n1, l1, node as int, s, e, p), Some(t)) by {
                            if p <= m {
                                assert(below(n2, l2, l, s, m, p) == below(n1, l1, l, s, m, p));
                            } else {
                                assert(below(n2, l2, r, m + 1, e, p) == below(n1, l1, r, m + 1, e, p));
                            }
                        }
                    }
                }
            } else {
                proof {
                    lemma_top(n1, l1, node as int, s, e);
                }
            }
            return self.nodes[node].key;
        }
        // Partial overlap
        proof {
            lemma_split(node as int, s, e);
        }
        let left_id = match self.nodes[node].id_left {
            Some(id) => id,
            None => 0,
        };
        let right_id = match self.nodes[node].id_right {
            Some(id) => id,
            None => 0,
        };
        let ghost m = mid(s, e);
        let max_left = self.update(start, end, t, left_id, Ghost(s), Ghost(m));
        let ghost n2 = self.nodes@;
        let ghost l2 = self.lazy_nodes@;
        proof {
            lemma_frame(n1, l1, n2, l2, right_of(node as int, s, e), m + 1, e);
        }
        let max_right = self.update(start, end, t, right_id, Ghost(m + 1), Ghost(e));
        let ghost n3 = self.nodes@;
        let ghost l3 = self.lazy_nodes@;
        let top = if max_left < max_right { max_right } else { max_left };
        let mut current = self.nodes[node];
        current.key = top;
        self.nodes.set(node, current);
        proof {
            let n4 = self.nodes@;
            let l4 = self.lazy_nodes@;
            let l = left_of(node as int);
            let r = right_of(node as int, s, e);
            assert(links(n4) =~= links(n3));
            lemma_frame(n2, l2, n4, l4, l, s, m);
            lemma_frame(n3, l3, n4, l4, r, m + 1, e);
            assert forall|p: int| s <= p <= e implies #[trigger] value_at(n4, l4, node as int, s, e, p) == if start
                <= p <= end {
                clamp(value_at(n1, l1, node as int, s, e, p), Some(t))
            } else {
                value_at(n1, l1, node as int, s, e, p)
            } by {
                if p <= m {
                    assert(below(n4, l4, l, s, m, p) == below(n2, l2, l, s, m, p));
                    assert(value_at(n2, l2, l, s, m, p) == value_at(n4, l4, l, s, m, p));
                } else {
                    assert(below(n4, l4, r, m + 1, e, p) == below(n3, l3, r, m + 1, e, p));
                    assert(value_at(n3, l3, r, m + 1, e, p) == value_at(n4, l4, r, m + 1, e, p));
                }
            }
        }
        top
    }

    /// Stamps the ceiling `t` on both children of `node`, if it has any.
    fn propagate(&mut self, node: usize, t: i32, Ghost(s): Ghost<int>, Ghost(e): Ghost<int>)
        requires
            old(self).nodes.len() == old(self).lazy_nodes.len(),
            shaped(links(old(self).nodes@), node as int, s, e),
        ensures
            final(self).nodes == old(self).nodes,
            s >= e ==> final(self).lazy_nodes@ == old(self).lazy_nodes@,
            s < e ==> final(self).lazy_nodes@ == old(self).lazy_nodes@.update(
                left_of(node as int),
                tighten(old(self).lazy_nodes@[left_of(node as int)], t),
            ).update(
                right_of(node as int, s, e),
                tighten(old(self).lazy_nodes@[right_of(node as int, s, e)], t),
            ),
    {
        proof {
            assert(links(self.nodes@)[node as int] == (
                self.nodes@[node as int].range.start,
                self.nodes@[node as int].range.end,
                self.nodes@[node as int].id_left,
                self.nodes@[node as int].id_right,
            ));
        }
        let left_id = match self.nodes[node].id_left {
            Some(id) => id,
            None => {
                return;
            },
        };
        let right_id = match self.nodes[node].id_right {
            Some(id) => id,
            None => {
                return;
            },
        };
        proof {
            lemma_split(node as int, s, e);
        }
        let new_left = match self.lazy_nodes[left_id] {
            Some(u) => if u < t { Some(u) } else { Some(t) },
            None => Some(t),
        };
        self.lazy_nodes.set(left_id, new_left);
        let new_right = match self.lazy_nodes[right_id] {
            Some(u) => if u < t { Some(u) } else { Some(t) },
            None => Some(t),
        };
        self.lazy_nodes.set(right_id, new_right);
    }
}


/// Node `j` holds the larger of its children's flushed aggregates, if it has children.
pub open spec fn combines(nodes: Seq<RangeNode>, lazy: Seq<Option<i32>>, j: int) -> bool {
    match (nodes[j].id_left, nodes[j].id_right) {
        (Some(l), Some(r)) => nodes[j].key as int == larger(flushed(nodes, lazy, l as int), flushed(nodes, lazy, r as int)),
        _ => true,
    }
}

proof fn lemma_all_combine(nodes: Seq<RangeNode>, lazy: Seq<Option<i32>>, i: int, s: int, e: int)
    requires
        shaped(links(nodes), i, s, e),
        agg_ok(nodes, lazy, i, s, e),
        nodes.len() <= usize::MAX,
    ensures
        forall|j: int| i <= j < i + span(s, e) ==> #[trigger] combines(nodes, lazy, j),
    decreases e - s,
{
    assert(links(nodes)[i] == (nodes[i].range.start, nodes[i].range.end, nodes[i].id_left, nodes[i].id_right));
    if s < e {
        lemma_split(i, s, e);
        lemma_all_combine(nodes, lazy, left_of(i), s, mid(s, e));
        lemma_all_combine(nodes, lazy, right_of(i, s, e), mid(s, e) + 1, e);
        assert(nodes[i].id_left == Some(left_of(i) as usize));
        assert(nodes[i].id_right == Some(right_of(i, s, e) as usize));
    }
    assert(combines(nodes, lazy, i));
}

impl MinMax {
    /// Every node of the arena with children holds the larger of their
    /// aggregates, each taken after the child's own pending ceiling.
    pub closed spec fn all_combine(&self) -> bool {
        forall|j: int| 0 <= j < self.nodes.len() ==> #[trigger] combines(self.nodes@, self.lazy_nodes@, j)
    }

    /// In a well-formed engine, which every constructor and operation leaves
    /// behind, each internal node's aggregate is the maximum of its two
    /// children's flushed aggregates.
    pub proof fn lemma_aggregate_invariant(&self)
        requires
            self.wf(),
        ensures
            self.all_combine(),
    {
        lemma_all_combine(self.nodes@, self.lazy_nodes@, 0, 0, self.size() - 1);
    }
}

/// A clamp never raises a value, so over any run of clamps the value at each
/// position can only go down.
pub proof fn lemma_clamp_never_raises(vals: Seq<int>, lo: int, hi: int, t: int)
    ensures
        clamped(vals, lo, hi, t).len() == vals.len(),
        forall|p: int| 0 <= p < vals.len() ==> #[trigger] clamped(vals, lo, hi, t)[p] <= vals[p],
{
}

/// Clamping a range to `t` a second time changes nothing.
pub proof fn lemma_clamp_idempotent(vals: Seq<int>, lo: int, hi: int, t: int)
    ensures
        clamped(clamped(vals, lo, hi, t), lo, hi, t) == clamped(vals, lo, hi, t),
{
    assert(clamped(clamped(vals, lo, hi, t), lo, hi, t) =~= clamped(vals, lo, hi, t));
}

} // verus!
