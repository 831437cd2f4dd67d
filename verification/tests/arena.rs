//! Tests of the vector-backed tree arena.

use tidy_tree::TreeLayout;

/// Build the sample tree used throughout: ids by node,
/// 5 -> (1 -> (0, 3 -> (2, 4)), 6 -> (8 -> 7)), cached breadth-first.
fn tree() -> TreeLayout<usize> {
    let mut t: TreeLayout<usize> = TreeLayout::new();
    let n5 = t.push_node(5, None);
    let n1 = t.push_node(1, Some(n5));
    let n6 = t.push_node(6, Some(n5));
    let _n0 = t.push_node(0, Some(n1));
    let n3 = t.push_node(3, Some(n1));
    let n8 = t.push_node(8, Some(n6));
    let _n2 = t.push_node(2, Some(n3));
    let _n4 = t.push_node(4, Some(n3));
    let _n7 = t.push_node(7, Some(n8));
    t
}

#[test]
fn new() {
    let tree = tree();

    assert_eq!(tree.len(), 9);
}

#[test]
fn root() {
    let tree = tree();

    assert!(tree.root().is_some());
    assert_eq!(tree.arena[tree.root().unwrap()].data, 5);
}

#[test]
fn breadth_first() {
    let tree = tree();
    let order = tree
        .breadth_first(tree.root().unwrap())
        .iter()
        .map(|&n| tree.arena[n].data)
        .collect::<Vec<_>>();

    assert_eq!(order, vec![5, 1, 6, 0, 3, 8, 2, 4, 7]);
}

#[test]
fn post_order() {
    let tree = tree();
    let order = tree
        .post_order(tree.root().unwrap())
        .iter()
        .map(|&n| tree.arena[n].data)
        .collect::<Vec<_>>();

    assert_eq!(order, vec![0, 2, 4, 3, 1, 7, 8, 6, 5]);
}

#[test]
fn is_root_true() {
    let tree = tree();

    assert!(tree.arena[tree.root().unwrap()].is_root());
}

#[test]
fn is_root_false() {
    let tree = tree();
    let child = tree.arena[tree.root().unwrap()].children[0];

    assert!(!tree.arena[child].is_root());
}

#[test]
fn is_leaf_true() {
    let tree = tree();
    let leaf =
        tree.arena[tree.arena[tree.arena[tree.root().unwrap()].children[1]].children[0]].children
            [0];

    assert!(tree.arena[leaf].is_leaf());
}

#[test]
fn is_leaf_false() {
    let tree = tree();

    assert!(!tree.arena[tree.root().unwrap()].is_leaf());
}

#[test]
fn left_siblings_and_between() {
    let tree = tree();
    // children of node 1 (arena index 1) are arena indices 3 and 4
    assert_eq!(tree.left_siblings(4), vec![3]);
    assert_eq!(tree.left_siblings(3), Vec::<usize>::new());
    assert_eq!(tree.siblings_between(3, 4), Vec::<usize>::new());
    assert_eq!(tree.previous_sibling(4), Some(3));
    assert_eq!(tree.previous_sibling(3), None);
}
