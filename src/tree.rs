use vstd::prelude::*;

verus! {

/// A node of the arena: its key and the arena indices of its children.
pub struct Node {
    pub key: i32,
    pub id_left: Option<usize>,
    pub id_right: Option<usize>,
}

impl Node {
    fn new(key: i32) -> (r: Self)
        ensures
            r == (Node { key, id_left: None, id_right: None }),
    {
        Self { key, id_left: None, id_right: None }
    }
}

/// A binary tree of keys, as mathematics sees it.
pub enum KeyTree {
    Nil,
    Branch { key: int, left: Box<KeyTree>, right: Box<KeyTree> },
}

/// The tree rooted at arena index `j`. A child link counts only where it
/// points further into the arena, which well-formed arenas always do.
pub open spec fn subtree(nodes: Seq<Node>, j: int) -> KeyTree
    decreases nodes.len() - j,
{
    if 0 <= j < nodes.len() {
        KeyTree::Branch {
            key: nodes[j].key as int,
            left: Box::new(
                match nodes[j].id_left {
                    Some(c) => if j < c < nodes.len() {
                        subtree(nodes, c as int)
                    } else {
                        KeyTree::Nil
                    },
                    None => KeyTree::Nil,
                },
            ),
            right: Box::new(
                match nodes[j].id_right {
                    Some(c) => if j < c < nodes.len() {
                        subtree(nodes, c as int)
                    } else {
                        KeyTree::Nil
                    },
                    None => KeyTree::Nil,
                },
            ),
        }
    } else {
        KeyTree::Nil
    }
}

/// The tree under an optional link.
pub open spec fn linked(nodes: Seq<Node>, id: Option<usize>) -> KeyTree {
    match id {
        Some(c) => subtree(nodes, c as int),
        None => KeyTree::Nil,
    }
}

/// Every link points to a later slot of the arena.
pub open spec fn links_forward(nodes: Seq<Node>) -> bool {
    forall|j: int|
        0 <= j < nodes.len() ==> (#[trigger] nodes[j].id_left matches Some(c) ==> j < c < nodes.len()) && (
        nodes[j].id_right matches Some(c) ==> j < c < nodes.len())
}

pub open spec fn in_i32(v: int) -> bool {
    i32::MIN <= v <= i32::MAX
}

/// Sum of all keys.
pub open spec fn tree_sum(t: KeyTree) -> int
    decreases t,
{
    match t {
        KeyTree::Nil => 0,
        KeyTree::Branch { key, left, right } => tree_sum(*left) + tree_sum(*right) + key,
    }
}

/// Adding up the keys, left subtree and right subtree first and then the
/// key, never leaves the `i32` range.
pub open spec fn sum_fits(t: KeyTree) -> bool
    decreases t,
{
    match t {
        KeyTree::Nil => true,
        KeyTree::Branch { key, left, right } => {
            &&& sum_fits(*left)
            &&& sum_fits(*right)
            &&& in_i32(tree_sum(*left) + tree_sum(*right))
            &&& in_i32(tree_sum(*left) + tree_sum(*right) + key)
        },
    }
}

/// Every key of `t` is at most `k`.
pub open spec fn all_le(t: KeyTree, k: int) -> bool
    decreases t,
{
    match t {
        KeyTree::Nil => true,
        KeyTree::Branch { key, left, right } => key <= k && all_le(*left, k) && all_le(*right, k),
    }
}

/// Every key of `t` is at least `k`.
pub open spec fn all_ge(t: KeyTree, k: int) -> bool
    decreases t,
{
    match t {
        KeyTree::Nil => true,
        KeyTree::Branch { key, left, right } => key >= k && all_ge(*left, k) && all_ge(*right, k),
    }
}

/// Binary search tree: at every node, no key on the left exceeds the node's
/// key and no key on the right is below it.
pub open spec fn is_bst(t: KeyTree) -> bool
    decreases t,
{
    match t {
        KeyTree::Nil => true,
        KeyTree::Branch { key, left, right } => {
            &&& is_bst(*left)
            &&& is_bst(*right)
            &&& all_le(*left, key)
            &&& all_ge(*right, key)
        },
    }
}

/// Largest key of a non-empty tree.
pub open spec fn tree_max(t: KeyTree) -> int
    decreases t,
{
    match t {
        KeyTree::Nil => 0,
        KeyTree::Branch { key, left, right } => {
            let a = if *left is Nil { key } else { tree_max(*left) };
            let b = if *right is Nil { key } else { tree_max(*right) };
            let ab = if a < b { b } else { a };
            if ab < key { key } else { ab }
        },
    }
}

/// Smallest key of a non-empty tree.
pub open spec fn tree_min(t: KeyTree) -> int
    decreases t,
{
    match t {
        KeyTree::Nil => 0,
        KeyTree::Branch { key, left, right } => {
            let a = if *left is Nil { key } else { tree_min(*left) };
            let b = if *right is Nil { key } else { tree_min(*right) };
            let ab = if a < b { a } else { b };
            if ab > key { key } else { ab }
        },
    }
}

proof fn lemma_all_le(t: KeyTree, k: int)
    requires
        !(t is Nil),
    ensures
        all_le(t, k) == (tree_max(t) <= k),
    decreases t,
{
    if let KeyTree::Branch { key, left, right } = t {
        if !(*left is Nil) {
            lemma_all_le(*left, k);
        } else {
            assert(all_le(*left, k));
        }
        if !(*right is Nil) {
            lemma_all_le(*right, k);
        } else {
            assert(all_le(*right, k));
        }
    }
}

proof fn lemma_all_ge(t: KeyTree, k: int)
    requires
        !(t is Nil),
    ensures
        all_ge(t, k) == (tree_min(t) >= k),
    decreases t,
{
    if let KeyTree::Branch { key, left, right } = t {
        if !(*left is Nil) {
            lemma_all_ge(*left, k);
        } else {
            assert(all_ge(*left, k));
        }
        if !(*right is Nil) {
            lemma_all_ge(*right, k);
        } else {
            assert(all_ge(*right, k));
        }
    }
}

/// Largest key sum along a path from the root of `t` down to a leaf.
pub open spec fn down(t: KeyTree) -> Option<int>
    decreases t,
{
    match t {
        KeyTree::Nil => None,
        KeyTree::Branch { key, left, right } => match (down(*left), down(*right)) {
            (None, None) => Some(key),
            (Some(a), None) => Some(key + a),
            (None, Some(b)) => Some(key + b),
            (Some(a), Some(b)) => Some(key + if a < b { b } else { a }),
        },
    }
}

/// The larger of two optional values; an absent value loses.
pub open spec fn opt_max(a: Option<int>, b: Option<int>) -> Option<int> {
    match (a, b) {
        (Some(x), Some(y)) => Some(if x < y { y } else { x }),
        (Some(x), None) => Some(x),
        _ => b,
    }
}

/// Largest key sum along a path between two leaves: the best, over every
/// node with two children, of its key plus the best way down on each side.
pub open spec fn best_path(t: KeyTree) -> Option<int>
    decreases t,
{
    match t {
        KeyTree::Nil => None,
        KeyTree::Branch { key, left, right } => opt_max(
            opt_max(best_path(*left), best_path(*right)),
            match (down(*left), down(*right)) {
                (Some(a), Some(b)) => Some(a + key + b),
                _ => None,
            },
        ),
    }
}

/// Every way down and every path between two leaves through a node sums
/// within the `i32` range.
pub open spec fn paths_fit(t: KeyTree) -> bool
    decreases t,
{
    match t {
        KeyTree::Nil => true,
        KeyTree::Branch { key, left, right } => {
            &&& paths_fit(*left)
            &&& paths_fit(*right)
            &&& (down(t) matches Some(v) ==> in_i32(v))
            &&& (match (down(*left), down(*right)) {
                (Some(a), Some(b)) => in_i32(a + key + b),
                _ => true,
            })
        },
    }
}

/// An optional `i32` as an optional integer.
pub open spec fn as_int(o: Option<i32>) -> Option<int> {
    match o {
        Some(v) => Some(v as int),
        None => None,
    }
}

/// In an arena whose links point forward, the tree at a slot is its key over
/// the trees under its two links.
proof fn lemma_subtree(nodes: Seq<Node>, j: int)
    requires
        links_forward(nodes),
        0 <= j < nodes.len(),
    ensures
        subtree(nodes, j) == (KeyTree::Branch {
            key: nodes[j].key as int,
            left: Box::new(linked(nodes, nodes[j].id_left)),
            right: Box::new(linked(nodes, nodes[j].id_right)),
        }),
{
    assert(nodes[j].id_left matches Some(c) ==> j < c < nodes.len());
}

/// A way down exists exactly in a non-empty tree.
proof fn lemma_down_some(t: KeyTree)
    ensures
        down(t) is Some <==> !(t is Nil),
        t is Nil ==> best_path(t) is None,
{
}

/// A binary tree stored as an arena of nodes; the root is at index 0.
pub struct Tree {
    nodes: Vec<Node>,
}

impl View for Tree {
    type V = Seq<Node>;

    closed spec fn view(&self) -> Seq<Node> {
        self.nodes@
    }
}

impl Tree {
    /// The arena is non-empty and every link points to a later slot.
    pub open spec fn wf(&self) -> bool {
        &&& self@.len() >= 1
        &&& links_forward(self@)
    }

    /// The tree as mathematics sees it.
    pub open spec fn shape(&self) -> KeyTree {
        subtree(self@, 0)
    }

    /// A tree made of a single node with `key`.
    pub fn with_root(key: i32) -> (r: Self)
        ensures
            r.wf(),
            r@ == seq![Node { key, id_left: None, id_right: None }],
    {
        let r = Self { nodes: vec![Node::new(key)] };
        proof {
            assert(r@ =~= seq![Node { key, id_left: None, id_right: None }]);
        }
        r
    }

    /// Adds a node with `key` as the left child of `parent_id` when `is_left`
    /// holds, else as its right child, and returns the new node's index.
    pub fn add_node(&mut self, parent_id: usize, key: i32, is_left: bool) -> (r: usize)
        requires
            old(self).wf(),
            parent_id < old(self)@.len(),
            is_left ==> old(self)@[parent_id as int].id_left is None,
            !is_left ==> old(self)@[parent_id as int].id_right is None,
        ensures
            final(self).wf(),
            r == old(self)@.len(),
            final(self)@ == old(self)@.update(
                parent_id as int,
                if is_left {
                    (Node {
                        key: old(self)@[parent_id as int].key,
                        id_left: Some(r),
                        id_right: old(self)@[parent_id as int].id_right,
                    })
                } else {
                    (Node {
                        key: old(self)@[parent_id as int].key,
                        id_left: old(self)@[parent_id as int].id_left,
                        id_right: Some(r),
                    })
                },
            ).push(Node { key, id_left: None, id_right: None }),
    {
        let child_id = self.nodes.len();
        self.nodes.push(Node::new(key));
        let parent = &self.nodes[parent_id];
        let updated = if is_left {
            Node { key: parent.key, id_left: Some(child_id), id_right: parent.id_right }
        } else {
            Node { key: parent.key, id_left: parent.id_left, id_right: Some(child_id) }
        };
        self.nodes.set(parent_id, updated);
        proof {
            let want = old(self)@.update(parent_id as int, updated).push(Node { key, id_left: None, id_right: None });
            assert(self@ =~= want);
            assert forall|j: int| 0 <= j < self@.len() implies (#[trigger] self@[j].id_left matches Some(c) ==> j < c
                < self@.len()) && (self@[j].id_right matches Some(c) ==> j < c < self@.len()) by {
                if j < old(self)@.len() && j != parent_id {
                    assert(self@[j] == old(self)@[j]);
                }
            }
        }
        child_id
    }

    /// Sum of all the keys in the tree.
    pub fn sum(&self) -> (r: i32)
        requires
            self.wf(),
            sum_fits(self.shape()),
        ensures
            r == tree_sum(self.shape()),
    {
        self.rec_sum(Some(0))
    }

    /// Sum of the keys in the subtree under `node_id`.
    fn rec_sum(&self, node_id: Option<usize>) -> (r: i32)
        requires
            self.wf(),
            node_id matches Some(id) ==> id < self@.len(),
            sum_fits(linked(self@, node_id)),
        ensures
            r == tree_sum(linked(self@, node_id)),
        decreases self@.len() - match node_id {
            Some(id) => id as int,
            None => self@.len() as int,
        },
    {
        if let Some(id) = node_id {
            let node = &self.nodes[id];
            proof {
                lemma_subtree(self@, id as int);
                assert(self@[id as int].id_left matches Some(c) ==> id < c < self@.len());
            }
            let sum_left = self.rec_sum(node.id_left);
            let sum_right = self.rec_sum(node.id_right);
            return sum_left + sum_right + node.key;
        }
        0
    }

    /// Whether the tree is a binary search tree.
    pub fn is_bts(&self) -> (r: bool)
        requires
            self.wf(),
        ensures
            r == is_bst(self.shape()),
    {
        self.rec_is_bts(0).0
    }

    /// Whether the subtree at `id` is a binary search tree and, when it is,
    /// its smallest and largest keys.
    fn rec_is_bts(&self, id: usize) -> (r: (bool, i32, i32))
        requires
            self.wf(),
            id < self@.len(),
        ensures
            r.0 == is_bst(subtree(self@, id as int)),
            r.0 ==> r.1 == tree_min(subtree(self@, id as int)) && r.2 == tree_max(subtree(self@, id as int)),
        decreases self@.len() - id,
    {
        let node = &self.nodes[id];
        let ghost nodes = self@;
        proof {
            lemma_subtree(nodes, id as int);
            assert(nodes[id as int].id_left matches Some(c) ==> id < c < nodes.len());
        }
        let ghost left_tree = linked(nodes, node.id_left);
        let ghost right_tree = linked(nodes, node.id_right);
        let mut lo = node.key;
        let mut hi = node.key;
        if let Some(id_left) = node.id_left {
            let left = self.rec_is_bts(id_left);
            proof {
                lemma_subtree(nodes, id_left as int);
                lemma_all_le(left_tree, node.key as int);
            }
            if !left.0 || left.2 > node.key {
                return (false, -1, -1);
            }
            lo = left.1;
        }
        if let Some(id_right) = node.id_right {
            let right = self.rec_is_bts(id_right);
            proof {
                lemma_subtree(nodes, id_right as int);
                lemma_all_ge(right_tree, node.key as int);
            }
            if !right.0 || right.1 < node.key {
                return (false, -1, -1);
            }
            hi = right.2;
        }
        proof {
            assert(is_bst(KeyTree::Nil));
            assert(all_le(KeyTree::Nil, node.key as int));
            assert(all_ge(KeyTree::Nil, node.key as int));
        }
        (true, lo, hi)
    }

    /// Largest key sum along a path between two leaves, or `None` where no
    /// node has two children.
    pub fn max_path_sum(&self) -> (r: Option<i32>)
        requires
            self.wf(),
            paths_fit(self.shape()),
        ensures
            as_int(r) == best_path(self.shape()),
    {
        self.rec_max_path_sum(Some(0)).1
    }

    /// For the subtree under `node_id`: the largest key sum down to a leaf,
    /// and the largest key sum along a path between two leaves.
    fn rec_max_path_sum(&self, node_id: Option<usize>) -> (r: (Option<i32>, Option<i32>))
        requires
            self.wf(),
            node_id matches Some(id) ==> id < self@.len(),
            paths_fit(linked(self@, node_id)),
        ensures
            as_int(r.0) == down(linked(self@, node_id)),
            as_int(r.1) == best_path(linked(self@, node_id)),
        decreases self@.len() - match node_id {
            Some(id) => id as int,
            None => self@.len() as int,
        },
    {
        if let Some(id) = node_id {
            let node = &self.nodes[id];
            let ghost nodes = self@;
            proof {
                lemma_subtree(nodes, id as int);
                assert(nodes[id as int].id_left matches Some(c) ==> id < c < nodes.len());
            }
            let ghost left_tree = linked(nodes, node.id_left);
            let ghost right_tree = linked(nodes, node.id_right);
            // the best path and the best way down in each subtree
            let left = self.rec_max_path_sum(node.id_left);
            let right = self.rec_max_path_sum(node.id_right);
            proof {
                lemma_down_some(left_tree);
                lemma_down_some(right_tree);
            }
            // a node without children is a leaf: its way down is its key alone
            if left.0.is_none() && right.0.is_none() {
                return (Some(node.key), None);
            }
            // the better of the paths found below
            let max_sum_child: Option<i32> = match (left.1, right.1) {
                (Some(a), Some(b)) => if a > b { Some(a) } else { Some(b) },
                (Some(a), None) => Some(a),
                (None, b) => b,
            };
            let key = node.key as i64;
            return match (left.0, right.0) {
                (Some(a), Some(b)) => {
                    let below = if a > b { a as i64 } else { b as i64 };
                    let through = a as i64 + key + b as i64;
                    let best = match max_sum_child {
                        Some(c) => if through > c as i64 { through } else { c as i64 },
                        None => through,
                    };
                    (Some((key + below) as i32), Some(best as i32))
                },
                (Some(a), None) => (Some((key + a as i64) as i32), max_sum_child),
                (None, Some(b)) => (Some((key + b as i64) as i32), max_sum_child),
                (None, None) => (Some(node.key), None),
            };
        }
        (None, None)
    }
}

} // verus!
