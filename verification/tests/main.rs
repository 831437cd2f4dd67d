//! Smoke tests.

use tidy_tree::{TidyTree, NULL_ID};

#[test]
fn ready() {
    println!("it works!")
}

#[test]
fn data_adds_a_batch() {
    let mut t = TidyTree::with_tidy_layout(1, 1);
    let ids = vec![1u64, 2, 3, 4];
    let widths = vec![2i64, 2, 2, 2];
    let heights = vec![2i64, 2, 2, 2];
    let parents = vec![NULL_ID, 1, 1, 2];
    t.data(&ids, &widths, &heights, &parents);
    assert!(!t.is_empty());
    assert_eq!(t.get_pos().len(), 4);
    t.layout();
    let pos = t.get_pos();
    // siblings 2 and 3 sit on one row below the root
    assert_eq!(pos[1].2, pos[2].2);
    assert_eq!(pos[0].2, 0);
}

#[test]
fn min_max_pick_the_right_operand() {
    assert_eq!(tidy_tree::arith::min(-3, 7), -3);
    assert_eq!(tidy_tree::arith::max(-3, 7), 7);
    assert_eq!(tidy_tree::arith::min(5, 5), 5);
    assert_eq!(tidy_tree::arith::max(5, 5), 5);
}

#[test]
fn plotter_carries_its_style() {
    let p = tidy_tree::SvgPlotter::new(String::from(".node { fill: none; }"));
    assert_eq!(p.style, ".node { fill: none; }");
    let d = tidy_tree::SvgPlotter::default();
    assert_eq!(d.style, "");
}
