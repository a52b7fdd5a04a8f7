use hands_on::scans::{next_largest_elem, sqrt};
use hands_on::tree::Tree;

#[test]
fn next_largest_sample() {
    let v = vec![1, 2, 3, 4, 1, 2];
    assert_eq!(next_largest_elem(&v), vec![(1, 2), (2, 3), (3, 4), (1, 2)]);
}

#[test]
fn next_largest_pops_later_values_first() {
    let v = vec![5, 3, 1, 4, 6];
    assert_eq!(next_largest_elem(&v), vec![(1, 4), (3, 4), (4, 6), (5, 6)]);
}

#[test]
fn next_largest_none_and_equal() {
    assert_eq!(next_largest_elem(&vec![]), vec![]);
    assert_eq!(next_largest_elem(&vec![4, 3, 3, 1]), vec![]);
    assert_eq!(next_largest_elem(&vec![2, 2, 3]), vec![(2, 3), (2, 3)]);
}

#[test]
fn square_roots() {
    assert_eq!(sqrt(25), 5);
    assert_eq!(sqrt(0), 0);
    assert_eq!(sqrt(1), 1);
    assert_eq!(sqrt(24), 4);
    assert_eq!(sqrt(26), 5);
    assert_eq!(sqrt(1_000_000_007), 31622);
    assert_eq!(sqrt(u64::MAX - 1), 4294967295);
}

#[test]
fn tree_sums() {
    let mut tree = Tree::with_root(10);
    assert_eq!(tree.sum(), 10);
    tree.add_node(0, -4, true);
    tree.add_node(0, 7, false);
    tree.add_node(1, 3, false);
    assert_eq!(tree.sum(), 16);
}

#[test]
fn add_node_returns_new_ids() {
    let mut tree = Tree::with_root(1);
    assert_eq!(tree.add_node(0, 2, true), 1);
    assert_eq!(tree.add_node(0, 3, false), 2);
    assert_eq!(tree.add_node(2, 4, true), 3);
    assert_eq!(tree.max_path_sum(), Some(2 + 1 + 3 + 4));
}

#[test]
fn bst_rejects_deep_violation() {
    // 25 sits in the left subtree of 20, below a right chain
    let mut tree = Tree::with_root(20);
    tree.add_node(0, 10, true);
    tree.add_node(1, 15, false);
    tree.add_node(2, 25, false);
    assert_eq!(tree.is_bts(), false);
}
