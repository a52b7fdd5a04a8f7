use hands_on::tree::Tree;

#[test]
fn valid_bts() {
    let mut tree = Tree::with_root(10);

    assert_eq!(tree.is_bts(), true);

    tree.add_node(0, 5, true); // id 1
    tree.add_node(0, 22, false); // id 2

    assert_eq!(tree.is_bts(), true);

    tree.add_node(1, 7, false); // id 3
    tree.add_node(2, 20, true); // id 4

    assert_eq!(tree.is_bts(), true);
}

#[test]
fn not_valid_bts() {
    let mut tree = Tree::with_root(10);

    tree.add_node(0, 11, true); // id 1
    tree.add_node(0, 22, false); // id 2

    assert_eq!(tree.is_bts(), false);

    let mut tree1 = Tree::with_root(10);

    tree1.add_node(0, 9, true); // id 1
    tree1.add_node(0, 9, false); // id 2

    assert_eq!(tree1.is_bts(), false);
}

#[test]
fn single_node_bts() {
    let tree = Tree::with_root(10);

    assert_eq!(tree.is_bts(), true);
}

#[test]
fn only_left_nodes_bts() {
    let mut tree = Tree::with_root(10);

    tree.add_node(0, 9, true); // id 1
    tree.add_node(1, 7, true); // id 3

    assert_eq!(tree.is_bts(), true);
}

#[test]
fn only_right_nodes_bts() {
    let mut tree = Tree::with_root(10);

    tree.add_node(0, 11, false); // id 1
    tree.add_node(1, 12, false); // id 3

    assert_eq!(tree.is_bts(), true);
}

#[test]
fn nested_tree_bts_1() {
    let mut tree = Tree::with_root(20);

    //       20
    //     /    \
    //   10      21
    //  /  \
    // 8   15
    tree.add_node(0, 10, true); // id 1
    tree.add_node(0, 21, false); // id 2
    tree.add_node(1, 8, true); // id 3
    tree.add_node(1, 15, false); // id 4

    assert_eq!(tree.is_bts(), true);

    let mut tree1 = Tree::with_root(20);

    //       20
    //     /    \
    //   10      21
    //  /  \
    // 8   22
    tree1.add_node(0, 10, true); // id 1
    tree1.add_node(0, 21, false); // id 2
    tree1.add_node(1, 8, true); // id 3
    tree1.add_node(1, 22, false); // id 4

    assert_eq!(tree1.is_bts(), false);
}

#[test]
fn nested_tree_bts_2() {
    let mut tree = Tree::with_root(20);

    //       20
    //     /    \
    //   10     30
    //         /  \
    //        28   31
    tree.add_node(0, 10, true); // id 1
    tree.add_node(0, 30, false); // id 2
    tree.add_node(2, 28, true); // id 3
    tree.add_node(2, 31, false); // id 4

    assert_eq!(tree.is_bts(), true);

    let mut tree1 = Tree::with_root(20);

    //       20
    //     /    \
    //   10     30
    //         /  \
    //        19   31
    tree1.add_node(0, 10, true); // id 1
    tree1.add_node(0, 30, false); // id 2
    tree1.add_node(2, 19, true); // id 3
    tree1.add_node(2, 31, false); // id 4

    assert_eq!(tree1.is_bts(), false);
}

#[test]
fn not_bts_subtree() {
    let mut tree = Tree::with_root(20);

    //       20
    //     /    \
    //   10      21
    //  /  \
    // 16   15
    tree.add_node(0, 10, true); // id 1
    tree.add_node(0, 21, false); // id 2
    tree.add_node(1, 16, true); // id 3
    tree.add_node(1, 15, false); // id 4

    assert_eq!(tree.is_bts(), false);

    let mut tree1 = Tree::with_root(20);

    //       20
    //     /    \
    //   10     30
    //         /  \
    //        40   31
    tree1.add_node(0, 10, true); // id 1
    tree1.add_node(0, 30, false); // id 2
    tree1.add_node(2, 19, true); // id 3
    tree1.add_node(2, 31, false); // id 4

    assert_eq!(tree1.is_bts(), false);
}

#[test]
fn simple_tree() {
    let mut tree = Tree::with_root(10);

    tree.add_node(0, 5, true); // id 1
    tree.add_node(0, 5, false); // id 3

    assert_eq!(tree.max_path_sum(), Some(20));
}

#[test]
fn right_subtree() {
    let mut tree = Tree::with_root(20);

    //       20
    //     /    \
    //   10      9
    //         /  \
    //        10   5
    tree.add_node(0, 10, true); // id 1
    tree.add_node(0, 9, false); // id 2
    tree.add_node(2, 10, true); // id 3
    tree.add_node(2, 5, false); // id 4

    assert_eq!(tree.max_path_sum(), Some(49));
}

#[test]
fn negative_values() {
    let mut tree = Tree::with_root(-20);

    //       -20
    //     /    \
    //   -10     9
    //         /  \
    //        10   5
    tree.add_node(0, -10, true); // id 1
    tree.add_node(0, 9, false); // id 2
    tree.add_node(2, 10, true); // id 3
    tree.add_node(2, 5, false); // id 4

    assert_eq!(tree.max_path_sum(), Some(24));
}

#[test]
fn more_negative_values() {
    let mut tree = Tree::with_root(-20);

    //       -20
    //     /    \
    //   100   -10
    //         /  \
    //       20   -5
    //              \
    //              50
    tree.add_node(0, 100, true); // id 1
    tree.add_node(0, -10, false); // id 2
    tree.add_node(2, 20, true); // id 3
    tree.add_node(2, -5, false); // id 4
    tree.add_node(4, 50, false); // id 5

    assert_eq!(tree.max_path_sum(), Some(115));

    let mut tree = Tree::with_root(-20);

    //       -20
    //     /    \
    //   100   -10
    //         /  \
    //       20   -5
    //           /  \
    //          -5  50
    //           \
    //           56
    tree.add_node(0, 100, true); // id 1
    tree.add_node(0, -10, false); // id 2
    tree.add_node(2, 20, true); // id 3
    tree.add_node(2, -5, false); // id 4
    tree.add_node(4, 50, false); // id 5
    tree.add_node(4, -5, true); // id 6
    tree.add_node(6, 56, false); // id 7

    assert_eq!(tree.max_path_sum(), Some(116));
}

#[test]
fn absent_path() {
    let tree = Tree::with_root(10);

    //     10
    //
    assert_eq!(tree.max_path_sum(), None);

    let mut tree = Tree::with_root(10);

    //     10
    //    /
    //   5
    tree.add_node(0, 5, true); // id 1

    assert_eq!(tree.max_path_sum(), None);

    let mut tree = Tree::with_root(10);

    //     10
    //       \
    //        5
    tree.add_node(0, 5, false); // id 1

    assert_eq!(tree.max_path_sum(), None);
}

#[test]
fn test6() {
    let mut tree = Tree::with_root(20);

    //         20
    //       /   \
    //    -10    10
    //    /     /  \
    //    0    35  50
    //  /  \
    // 100 100
    tree.add_node(0, -10, true); // id 1
    tree.add_node(0, 10, false); // id 2
    tree.add_node(1, 0, true); // id 3
    tree.add_node(2, 35, true); // id 4
    tree.add_node(2, 50, false); // id 5
    tree.add_node(3, 100, true); // id 6
    tree.add_node(3, 100, false); // id 7

    assert_eq!(tree.max_path_sum(), Some(200));
}

#[test]
fn test7() {
    let mut tree = Tree::with_root(-15);

    //            -15
    //          /      \
    //          5         6
    //        /  \       / \
    //      -8    1     3   9
    //     /  \              \
    //    2   -3              0
    //                       / \
    //                      4  -1
    //                         /
    //                       10
    tree.add_node(0, 5, true); // id 1
    tree.add_node(0, 6, false); // id 2
    tree.add_node(1, -8, true); // id 3
    tree.add_node(1, 1, false); // id 4
    tree.add_node(2, 3, true); // id 5
    tree.add_node(2, 9, false); // id 6
    tree.add_node(3, 2, true); // id 7
    tree.add_node(3, -3, false); // id 8
    tree.add_node(6, 0, false); // id 9
    tree.add_node(9, 4, true); // id 10
    tree.add_node(9, -1, false); // id 11
    tree.add_node(11, 10, true); // id 12

    assert_eq!(tree.max_path_sum(), Some(27))
}

#[test]
fn test8() {
    let mut tree = Tree::with_root(3);

    //            3
    //         /    \
    //       4       5
    //      /  \
    //    -10   4
    tree.add_node(0, 4, true);
    tree.add_node(0, 5, false);
    tree.add_node(1, -10, true);
    tree.add_node(1, 4, false);

    assert_eq!(tree.max_path_sum(), Some(16))
}

