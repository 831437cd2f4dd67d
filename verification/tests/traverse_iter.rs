//! Pre-order traversal over a growing tree.

use tidy_tree::{TidyTree, Traverse, NULL_ID};

fn count(t: &TidyTree) -> usize {
    let mut walk = Traverse::new(&t.nodes, 0);
    let mut n = 0;
    while let Some(_) = walk.next() {
        n += 1;
    }
    n
}

#[test]
fn test_node_iter() {
    let mut root = TidyTree::with_tidy_layout(1, 1);
    root.add_node(0, 1, 1, NULL_ID);
    root.add_node(1, 2, 2, 0);
    assert_eq!(count(&root), 2);
    root.add_node(2, 3, 3, 0);
    assert_eq!(count(&root), 3);
    root.add_node(3, 3, 3, 0);
    assert_eq!(count(&root), 4);
    root.add_node(4, 3, 3, 3);
    assert_eq!(count(&root), 5);

    let mut walk = Traverse::new(&root.nodes, 0);
    let mut i: u64 = 0;
    while let Some(idx) = walk.next() {
        assert_eq!(i, root.nodes[idx].id);
        i += 1;
    }
}
