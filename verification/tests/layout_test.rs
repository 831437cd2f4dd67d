//! Layout engine tests: aesthetic rules on random trees, symmetry,
//! and partial/full equivalence under random incremental edits.

use rand::rngs::StdRng;
use rand::{Rng, SeedableRng};
use std::collections::HashMap;
use tidy_tree::{LayoutType, TidyTree, NULL_ID};

/// A test-side record of the tree fed to the engine: entry k describes
/// the k-th added node.
struct Model {
    ids: Vec<u64>,
    w: Vec<i64>,
    h: Vec<i64>,
    parent: Vec<Option<usize>>,
    children: Vec<Vec<usize>>,
}

impl Model {
    fn new() -> Self {
        Model { ids: vec![], w: vec![], h: vec![], parent: vec![], children: vec![] }
    }

    fn add(&mut self, t: &mut TidyTree, id: u64, w: i64, h: i64, parent: Option<usize>) -> usize {
        let idx = self.ids.len();
        match parent {
            Some(p) => t.add_node(id, w, h, self.ids[p]),
            None => t.add_node(id, w, h, NULL_ID),
        }
        self.ids.push(id);
        self.w.push(w);
        self.h.push(h);
        self.parent.push(parent);
        self.children.push(vec![]);
        if let Some(p) = parent {
            self.children[p].push(idx);
        }
        idx
    }
}

fn positions(t: &TidyTree) -> Vec<(i64, i64)> {
    t.get_pos().iter().map(|&(_, x, y)| (x, y)).collect()
}

fn assert_no_overlap(t: &TidyTree, pos: &[(i64, i64)]) {
    let n = pos.len();
    for i in 0..n {
        for j in 0..i {
            assert!(
                !tidy_tree::node::intersects(&t.nodes[i], &t.nodes[j]),
                "boxes {} and {} overlap",
                i,
                j
            );
        }
    }
}

fn check_nodes_order(m: &Model, pos: &[(i64, i64)]) {
    for ch in m.children.iter() {
        let mut prev: Option<i64> = None;
        for &c in ch.iter() {
            if let Some(p) = prev {
                assert!(p < pos[c].0, "children out of order");
            }
            prev = Some(pos[c].0);
        }
    }
}

fn check_y_position_in_same_level(m: &Model, pos: &[(i64, i64)]) {
    for ch in m.children.iter() {
        let mut prev: Option<i64> = None;
        for &c in ch.iter() {
            if let Some(p) = prev {
                assert_eq!(p, pos[c].1, "siblings on different rows");
            }
            prev = Some(pos[c].1);
        }
    }
}

/// Rebuild the tree with every child list reversed and lay it out.
fn mirrored(m: &Model, margin: i64, peer_margin: i64, layered: bool) -> TidyTree {
    let mut t = if layered {
        TidyTree::with_layered_tidy(margin, peer_margin)
    } else {
        TidyTree::with_tidy_layout(margin, peer_margin)
    };
    fn add_rec(m: &Model, t: &mut TidyTree, idx: usize, parent_id: u64) {
        t.add_node(m.ids[idx], m.w[idx], m.h[idx], parent_id);
        for &c in m.children[idx].iter().rev() {
            add_rec(m, t, c, m.ids[idx]);
        }
    }
    add_rec(m, &mut t, 0, NULL_ID);
    t.layout();
    t
}

/// Mirroring and relaying out negates every x up to integer rounding:
/// pushes spread across intervening siblings by truncating division, so
/// the two runs may round a handful of units apart.
fn assert_symmetric(m: &Model, t: &TidyTree, margin: i64, peer_margin: i64, layered: bool, tol: i64) {
    let mt = mirrored(m, margin, peer_margin, layered);
    let mut mx: HashMap<u64, i64> = HashMap::new();
    for (id, x, _) in mt.get_pos() {
        mx.insert(id, x);
    }
    for (id, x, _) in t.get_pos() {
        assert!(
            (x + mx[&id]).abs() <= tol,
            "mirror image is not the negation at node {}: {} vs {}",
            id,
            x,
            mx[&id]
        );
    }
}

fn gen_tree(rng: &mut StdRng, num: usize, margin: i64, peer_margin: i64, layered: bool) -> (
    TidyTree,
    Model,
) {
    let mut t = if layered {
        TidyTree::with_layered_tidy(margin, peer_margin)
    } else {
        TidyTree::with_tidy_layout(margin, peer_margin)
    };
    let mut m = Model::new();
    let root_w = rng.gen_range(5..50);
    let root_h = rng.gen_range(5..50);
    m.add(&mut t, 0, root_w, root_h, None);
    for k in 1..num {
        let p = rng.gen_range(0..m.ids.len());
        let w = rng.gen_range(5..50);
        let h = rng.gen_range(5..50);
        m.add(&mut t, k as u64, w, h, Some(p));
    }
    (t, m)
}

fn test_layout(margin: i64, peer_margin: i64, layered: bool) {
    let mut rng = StdRng::seed_from_u64(1001);
    for _ in 0..20 {
        let (mut t, m) = gen_tree(&mut rng, 100, margin, peer_margin, layered);
        t.layout();
        let pos = positions(&t);
        assert_no_overlap(&t, &pos);
        check_nodes_order(&m, &pos);
        check_y_position_in_same_level(&m, &pos);
        assert_symmetric(&m, &t, margin, peer_margin, layered, 16);
    }
}

fn test_partial_layout(margin: i64, peer_margin: i64, layered: bool) {
    let mut rng = StdRng::seed_from_u64(2001);
    for _ in 0..5 {
        let (mut t, mut m) = gen_tree(&mut rng, 10, margin, peer_margin, layered);
        t.layout();
        let mut next_id: u64 = 10_000;
        for _ in 0..100 {
            let p = rng.gen_range(0..m.ids.len());
            let w = rng.gen_range(1..100);
            let h = rng.gen_range(1..100);
            let new_id = next_id;
            next_id += 1;
            m.add(&mut t, new_id, w, h, Some(p));
            let c = rng.gen_range(0..m.ids.len());
            let cw = rng.gen_range(1..100);
            let ch = rng.gen_range(1..100);
            t.set_size(m.ids[c], cw, ch);
            m.w[c] = cw;
            m.h[c] = ch;
            t.partial_layout(&vec![new_id, m.ids[c]]);
            let pos = positions(&t);
            check_nodes_order(&m, &pos);
            check_y_position_in_same_level(&m, &pos);
            assert_no_overlap(&t, &pos);
        }
    }
}

fn align_partial_layout_with_full_layout(margin: i64, peer_margin: i64) {
    let mut rng = StdRng::seed_from_u64(1001);
    for _ in 0..3 {
        let (mut t, mut m) = gen_tree(&mut rng, 100, margin, peer_margin, false);
        t.layout();
        let mut next_id: u64 = 10_000;
        for times in 0..100 {
            let p = rng.gen_range(0..m.ids.len());
            let new_id = next_id;
            next_id += 1;
            m.add(&mut t, new_id, rng.gen_range(1..100), rng.gen_range(1..100), Some(p));
            let c = rng.gen_range(0..m.ids.len());
            let cw = rng.gen_range(1..100);
            let ch = rng.gen_range(1..100);
            t.set_size(m.ids[c], cw, ch);
            m.w[c] = cw;
            m.h[c] = ch;
            t.partial_layout(&vec![new_id, m.ids[c]]);
            let partial: Vec<i64> = t.get_pos().iter().map(|&(_, x, _)| x).collect();
            t.layout();
            let full: Vec<i64> = t.get_pos().iter().map(|&(_, x, _)| x).collect();
            assert_eq!(partial, full, "partial layout diverged from full at edit {}", times);
        }
    }
}

#[test]
fn test_tidy_layout() {
    test_layout(10, 10, false);
}

#[test]
fn test_tidy_layout2() {
    let mut t = TidyTree::with_tidy_layout(1, 1);
    t.add_node(0, 1, 1, NULL_ID);
    t.add_node(1, 1, 1, 0);
    t.add_node(10, 2, 1, 1);
    t.add_node(100, 1, 1, 10);
    t.add_node(2, 1, 1, 0);
    t.add_node(11, 1, 1, 2);
    t.add_node(101, 1, 1, 11);
    t.add_node(3, 1, 2, 0);
    let m = rebuild_model(&[
        (0, 1, 1, None),
        (1, 1, 1, Some(0)),
        (10, 2, 1, Some(1)),
        (100, 1, 1, Some(2)),
        (2, 1, 1, Some(0)),
        (11, 1, 1, Some(4)),
        (101, 1, 1, Some(5)),
        (3, 1, 2, Some(0)),
    ]);
    t.layout();
    assert_symmetric(&m, &t, 1, 1, false, 2);
}

#[test]
fn test_tidy_layout3() {
    let mut t = TidyTree::with_tidy_layout(1, 1);
    t.add_node(0, 8, 7, NULL_ID);
    t.add_node(1, 3, 9, 0);
    t.add_node(10, 3, 8, 1);
    t.add_node(11, 5, 5, 1);
    t.add_node(12, 6, 8, 1);
    t.add_node(3, 1, 1, 0);
    let m = rebuild_model(&[
        (0, 8, 7, None),
        (1, 3, 9, Some(0)),
        (10, 3, 8, Some(1)),
        (11, 5, 5, Some(1)),
        (12, 6, 8, Some(1)),
        (3, 1, 1, Some(0)),
    ]);
    t.layout();
    let pos = positions(&t);
    assert_no_overlap(&t, &pos);
    assert_symmetric(&m, &t, 1, 1, false, 2);
}

#[test]
fn test_tidy_partial_layout() {
    test_partial_layout(10, 10, false);
    align_partial_layout_with_full_layout(10, 10);
}

#[test]
fn test_layered_tidy_layout() {
    test_layout(10, 10, true);
    test_partial_layout(10, 10, true);
}

fn rebuild_model(entries: &[(u64, i64, i64, Option<usize>)]) -> Model {
    let mut m = Model::new();
    for &(id, w, h, parent) in entries.iter() {
        let idx = m.ids.len();
        m.ids.push(id);
        m.w.push(w);
        m.h.push(h);
        m.parent.push(parent);
        m.children.push(vec![]);
        if let Some(p) = parent {
            m.children[p].push(idx);
        }
    }
    m
}

#[test]
fn single_root_sits_at_origin() {
    let mut t = TidyTree::with_tidy_layout(1, 1);
    t.add_node(7, 1, 1, NULL_ID);
    t.layout();
    let pos = t.get_pos();
    assert_eq!(pos, vec![(7, 0, 0)]);
}

#[test]
fn unit_boxes_place_root_between_children() {
    // root(1x1) with A(1x1 -> A1), B(1x1 -> B1), C(1x2); margins 1/1
    let mut t = TidyTree::with_tidy_layout(1, 1);
    t.add_node(0, 1, 1, NULL_ID);
    t.add_node(1, 1, 1, 0); // A
    t.add_node(10, 1, 1, 1); // A1
    t.add_node(2, 1, 1, 0); // B
    t.add_node(20, 1, 1, 2); // B1
    t.add_node(3, 1, 2, 0); // C
    let m = rebuild_model(&[
        (0, 1, 1, None),
        (1, 1, 1, Some(0)),
        (10, 1, 1, Some(1)),
        (2, 1, 1, Some(0)),
        (20, 1, 1, Some(3)),
        (3, 1, 2, Some(0)),
    ]);
    t.layout();
    let pos = positions(&t);
    assert_no_overlap(&t, &pos);
    check_nodes_order(&m, &pos);
    // the root is centered on the midpoint of its first and last child
    let (rx, _) = pos[0];
    let (ax, _) = pos[1];
    let (cx, _) = pos[5];
    assert_eq!(rx, (ax + cx) / 2);
    // the two equal subtrees keep the same internal offsets
    let (bx, _) = pos[3];
    let (a1x, _) = pos[2];
    let (b1x, _) = pos[4];
    assert_eq!(a1x - ax, b1x - bx);
}

#[test]
fn layered_rows_share_one_baseline() {
    // uneven sibling subtrees: layered mode still aligns whole rows
    let mut t = TidyTree::with_layered_tidy(2, 3);
    t.add_node(1, 4, 4, NULL_ID);
    t.add_node(2, 4, 10, 1);
    t.add_node(3, 4, 2, 1);
    t.add_node(4, 4, 2, 2);
    t.add_node(5, 4, 2, 3);
    t.layout();
    let pos = t.get_pos();
    // depths: node 1 -> 0; 2,3 -> 1; 4,5 -> 2
    assert_eq!(pos[1].2, pos[2].2);
    assert_eq!(pos[3].2, pos[4].2);
    // the second row sits below the tallest parent of its nodes
    assert_eq!(pos[0].2, 0);
    assert_eq!(pos[1].2, 4 + 2);
    assert_eq!(pos[3].2, 4 + 2 + 10 + 2);
}

#[test]
fn per_level_rows_follow_parent_bottom() {
    let mut t = TidyTree::with_tidy_layout(5, 1);
    t.add_node(1, 2, 3, NULL_ID);
    t.add_node(2, 2, 7, 1);
    t.add_node(3, 2, 1, 2);
    t.layout();
    let pos = t.get_pos();
    assert_eq!(pos[0].2, 0);
    assert_eq!(pos[1].2, 3 + 5);
    assert_eq!(pos[2].2, 3 + 5 + 7 + 5);
}

#[test]
fn layout_twice_is_identical() {
    let mut rng = StdRng::seed_from_u64(77);
    let (mut t, _m) = gen_tree(&mut rng, 60, 4, 2, false);
    t.layout();
    let first = t.get_pos();
    t.layout();
    let second = t.get_pos();
    assert_eq!(first, second);
}

#[test]
fn change_layout_switches_policy() {
    let mut t = TidyTree::with_tidy_layout(2, 2);
    assert!(t.is_empty());
    t.add_node(1, 4, 4, NULL_ID);
    t.add_node(2, 4, 9, 1);
    t.add_node(3, 4, 1, 1);
    t.add_node(4, 4, 1, 2);
    t.add_node(5, 4, 1, 3);
    assert!(!t.is_empty());
    t.change_layout(LayoutType::LayeredTidy);
    t.layout();
    let pos = t.get_pos();
    // layered: the grandchildren share a row although their parents differ
    assert_eq!(pos[3].2, pos[4].2);
    t.change_layout(LayoutType::Tidy);
    t.layout();
    let pos = t.get_pos();
    // per-level: each hangs below its own parent's bottom
    assert_eq!(pos[3].2, (9 + 2) + (4 + 2));
    assert_eq!(pos[4].2, (1 + 2) + (4 + 2));
}
