//! The node arena.
//!
//! The whole tree lives in one `Vec<LayoutNode>`; every parent, child,
//! thread and extreme reference is an index into that vector.  The root,
//! when the arena is non-empty, sits at index 0, and every child has a
//! larger index than its parent, so walking downward terminates and
//! top-down passes can run in plain index order.

use vstd::prelude::*;

verus! {

/// One node of the tree, together with its fixed layout-state slot.
///
/// `width` and `height` are the box dimensions supplied by the caller.
/// Horizontal extents are handled as `width / 2` on either side of `x`
/// with truncating division, so an odd width occupies one unit less
/// than its nominal value; callers wanting exact extents use even
/// widths.  `x`/`y` are the absolute coordinates of the box center (x)
/// and top (y) written by a layout pass.  The rest is the bookkeeping of
/// the two-pass algorithm: `relative_x` is the position in the parent's
/// local frame, `modifier_to_subtree` the offset that converts it into a
/// true position once summed along the root path, the extreme/thread
/// fields cache contour shortcuts, and the shift fields hold deferred
/// spacing deltas applied in one prefix-sum pass.
pub struct LayoutNode {
    pub id: u64,
    pub width: i64,
    pub height: i64,
    pub x: i64,
    pub y: i64,
    pub relative_x: i64,
    pub order: usize,
    pub depth: usize,
    pub parent: Option<usize>,
    pub children: Vec<usize>,
    pub extreme_left: Option<usize>,
    pub extreme_right: Option<usize>,
    pub thread_left: Option<usize>,
    pub thread_right: Option<usize>,
    pub modifier_to_subtree: i64,
    pub modifier_extreme_left: i64,
    pub modifier_extreme_right: i64,
    pub modifier_thread_left: i64,
    pub modifier_thread_right: i64,
    pub shift_acceleration: i64,
    pub shift_change: i64,
}

/// An optional index refers into the arena or is absent.
pub open spec fn opt_idx_ok(o: Option<usize>, len: int) -> bool {
    match o {
        Some(k) => (k as int) < len,
        None => true,
    }
}

/// Structural well-formedness of one slot: the root is exactly index 0,
/// parents come before children, parent/child links agree in both
/// directions, `order` and `depth` are consistent, and every cached
/// reference stays inside the arena.
pub open spec fn node_wf(s: Seq<LayoutNode>, i: int) -> bool {
    &&& ((i == 0) <==> s[i].parent is None)
    &&& (match s[i].parent {
        Some(p) => {
            &&& (p as int) < i
            &&& s[i].depth == s[p as int].depth + 1
            &&& (s[i].order as int) < s[p as int].children@.len()
            &&& s[p as int].children@[s[i].order as int] == i
        },
        None => s[i].depth == 0,
    })
    &&& (forall|k: int|
        0 <= k < s[i].children@.len() ==> {
            &&& i < #[trigger] s[i].children@[k] as int
            &&& (s[i].children@[k] as int) < s.len()
            &&& s[s[i].children@[k] as int].parent == Some(i as usize)
            &&& s[s[i].children@[k] as int].order as int == k
        })
    &&& opt_idx_ok(s[i].extreme_left, s.len() as int)
    &&& opt_idx_ok(s[i].extreme_right, s.len() as int)
    &&& opt_idx_ok(s[i].thread_left, s.len() as int)
    &&& opt_idx_ok(s[i].thread_right, s.len() as int)
}

/// Structural well-formedness of the whole arena.
pub open spec fn arena_wf(s: Seq<LayoutNode>) -> bool {
    forall|i: int| 0 <= i < s.len() ==> node_wf(s, i)
}

/// The tree shape and box sizes of one node: everything a layout pass
/// reads but must never change.
pub open spec fn same_shape_at(a: Seq<LayoutNode>, b: Seq<LayoutNode>, i: int) -> bool {
    &&& b[i].id == a[i].id
    &&& b[i].width == a[i].width
    &&& b[i].height == a[i].height
    &&& b[i].order == a[i].order
    &&& b[i].depth == a[i].depth
    &&& b[i].parent == a[i].parent
    &&& b[i].children@ == a[i].children@
}

/// Two arenas carry the same tree: same length, and node for node the
/// same identity, box sizes and links.
pub open spec fn same_shape(a: Seq<LayoutNode>, b: Seq<LayoutNode>) -> bool {
    &&& a.len() == b.len()
    &&& forall|i: int| 0 <= i < a.len() ==> same_shape_at(a, b, i)
}

/// The layout-state fields of one node agree, the vertical coordinate
/// aside: horizontal results, caches and deferred shifts.
pub open spec fn same_state_at(a: Seq<LayoutNode>, b: Seq<LayoutNode>, i: int) -> bool {
    &&& b[i].x == a[i].x
    &&& b[i].relative_x == a[i].relative_x
    &&& b[i].extreme_left == a[i].extreme_left
    &&& b[i].extreme_right == a[i].extreme_right
    &&& b[i].thread_left == a[i].thread_left
    &&& b[i].thread_right == a[i].thread_right
    &&& b[i].modifier_to_subtree == a[i].modifier_to_subtree
    &&& b[i].modifier_extreme_left == a[i].modifier_extreme_left
    &&& b[i].modifier_extreme_right == a[i].modifier_extreme_right
    &&& b[i].modifier_thread_left == a[i].modifier_thread_left
    &&& b[i].modifier_thread_right == a[i].modifier_thread_right
    &&& b[i].shift_acceleration == a[i].shift_acceleration
    &&& b[i].shift_change == a[i].shift_change
}

/// The child vectors themselves are untouched, entry for entry.
pub open spec fn kept_children(a: Seq<LayoutNode>, b: Seq<LayoutNode>) -> bool {
    forall|i: int| 0 <= i < a.len() ==> #[trigger] b[i].children == a[i].children
}

/// Vertical positions are untouched as well.
pub open spec fn same_y(a: Seq<LayoutNode>, b: Seq<LayoutNode>) -> bool {
    &&& a.len() == b.len()
    &&& forall|i: int| 0 <= i < a.len() ==> b[i].y == a[i].y
}

/// Both contour extremes of a node are cached and in range.
pub open spec fn extremes_set(s: Seq<LayoutNode>, i: int) -> bool {
    &&& s[i].extreme_left is Some
    &&& s[i].extreme_right is Some
}

/// Two nodes carry the same identity, box sizes and links.
pub open spec fn shape_eq_node(a: LayoutNode, b: LayoutNode) -> bool {
    &&& b.id == a.id
    &&& b.width == a.width
    &&& b.height == a.height
    &&& b.order == a.order
    &&& b.depth == a.depth
    &&& b.parent == a.parent
    &&& b.children@ == a.children@
}

/// Replacing one node by one with the same links and in-range caches
/// keeps the arena well-formed; box sizes may differ.
pub proof fn lemma_update_links_keeps_wf(s: Seq<LayoutNode>, i: int, n2: LayoutNode)
    requires
        arena_wf(s),
        0 <= i < s.len(),
        n2.order == s[i].order,
        n2.depth == s[i].depth,
        n2.parent == s[i].parent,
        n2.children@ == s[i].children@,
        opt_idx_ok(n2.extreme_left, s.len() as int),
        opt_idx_ok(n2.extreme_right, s.len() as int),
        opt_idx_ok(n2.thread_left, s.len() as int),
        opt_idx_ok(n2.thread_right, s.len() as int),
    ensures
        arena_wf(s.update(i, n2)),
{
    let s2 = s.update(i, n2);
    assert forall|j: int| 0 <= j < s2.len() implies node_wf(s2, j) by {
        assert(node_wf(s, j));
        if j != i {
            assert(s2[j] == s[j]);
        }
        match s[j].parent {
            Some(p) => {
                assert(node_wf(s, p as int));
            },
            None => {},
        }
        assert forall|k: int| 0 <= k < s2[j].children@.len() implies {
            &&& j < #[trigger] s2[j].children@[k] as int
            &&& (s2[j].children@[k] as int) < s2.len()
            &&& s2[s2[j].children@[k] as int].parent == Some(j as usize)
            &&& s2[s2[j].children@[k] as int].order as int == k
        } by {
            assert(s2[j].children@ == s[j].children@);
            let c = s[j].children@[k] as int;
            assert(s2[c].parent == s[c].parent);
            assert(s2[c].order == s[c].order);
        }
    }
}

/// Replacing one node by a shape-equal node with in-range caches keeps
/// the arena well-formed and the tree shape intact.
pub proof fn lemma_update_keeps_wf(s: Seq<LayoutNode>, i: int, n2: LayoutNode)
    requires
        arena_wf(s),
        0 <= i < s.len(),
        shape_eq_node(s[i], n2),
        opt_idx_ok(n2.extreme_left, s.len() as int),
        opt_idx_ok(n2.extreme_right, s.len() as int),
        opt_idx_ok(n2.thread_left, s.len() as int),
        opt_idx_ok(n2.thread_right, s.len() as int),
    ensures
        arena_wf(s.update(i, n2)),
        same_shape(s, s.update(i, n2)),
        n2.y == s[i].y ==> same_y(s, s.update(i, n2)),
{
    let s2 = s.update(i, n2);
    assert forall|j: int| 0 <= j < s.len() implies same_shape_at(s, s2, j) by {
        if j != i {
            assert(s2[j] == s[j]);
        }
    }
    assert forall|j: int| 0 <= j < s2.len() implies node_wf(s2, j) by {
        assert(node_wf(s, j));
        if j != i {
            assert(s2[j] == s[j]);
        }
        match s[j].parent {
            Some(p) => {
                assert(node_wf(s, p as int));
                assert(same_shape_at(s, s2, p as int));
            },
            None => {},
        }
        assert forall|k: int| 0 <= k < s2[j].children@.len() implies {
            &&& j < #[trigger] s2[j].children@[k] as int
            &&& (s2[j].children@[k] as int) < s2.len()
            &&& s2[s2[j].children@[k] as int].parent == Some(j as usize)
            &&& s2[s2[j].children@[k] as int].order as int == k
        } by {
            assert(s2[j].children@ == s[j].children@);
            let c = s[j].children@[k] as int;
            assert(same_shape_at(s, s2, c));
        }
    }
}

/// `j` lies in the subtree rooted at `anc`: the parent chain from `j`
/// reaches `anc`.  Parents have smaller indices, so the chain descends.
pub open spec fn in_subtree(s: Seq<LayoutNode>, anc: int, j: int) -> bool
    decreases j,
{
    if j == anc {
        true
    } else if j <= anc || j <= 0 || j >= s.len() {
        false
    } else {
        match s[j].parent {
            Some(p) => (p as int) < j && in_subtree(s, anc, p as int),
            None => false,
        }
    }
}

/// Every node lies under the root.
pub proof fn lemma_all_under_root(s: Seq<LayoutNode>, j: int)
    requires
        arena_wf(s),
        0 <= j < s.len(),
    ensures
        in_subtree(s, 0, j),
    decreases j,
{
    assert(node_wf(s, j));
    if j != 0 {
        let p = s[j].parent->Some_0 as int;
        lemma_all_under_root(s, p);
    }
}

/// A strict descendant of `v` lies in the subtree of one of `v`'s
/// children.
pub proof fn lemma_subtree_step(s: Seq<LayoutNode>, v: int, j: int) -> (k: int)
    requires
        arena_wf(s),
        0 <= v < s.len(),
        0 <= j < s.len(),
        in_subtree(s, v, j),
        j != v,
    ensures
        0 <= k < s[v].children@.len(),
        in_subtree(s, s[v].children@[k] as int, j),
    decreases j,
{
    assert(node_wf(s, j));
    let p = s[j].parent->Some_0 as int;
    if p == v {
        assert(node_wf(s, p));
        s[j].order as int
    } else {
        let k = lemma_subtree_step(s, v, p);
        k
    }
}

/// Subtree membership reads only the parent links, so it carries over
/// to any arena of the same shape.
pub proof fn lemma_in_subtree_same_shape(
    a: Seq<LayoutNode>,
    b: Seq<LayoutNode>,
    anc: int,
    j: int,
)
    requires
        arena_wf(a),
        same_shape(a, b),
    ensures
        in_subtree(a, anc, j) == in_subtree(b, anc, j),
    decreases (if j > 0 { j } else { 0 }),
{
    if j == anc {
    } else if j <= anc || j <= 0 || j >= a.len() {
    } else {
        assert(same_shape_at(a, b, j));
        assert(node_wf(a, j));
        match a[j].parent {
            Some(p) => {
                lemma_in_subtree_same_shape(a, b, anc, p as int);
            },
            None => {},
        }
    }
}

/// Two laid-out boxes overlap: their horizontal spans — half the width
/// to either side of x — and their vertical spans — from y down by the
/// height — both intersect strictly.
pub open spec fn boxes_overlap(a: LayoutNode, b: LayoutNode) -> bool {
    &&& a.x - crate::arith::tdiv(a.width as int, 2) < b.x + crate::arith::tdiv(b.width as int, 2)
    &&& a.x + crate::arith::tdiv(a.width as int, 2) > b.x - crate::arith::tdiv(b.width as int, 2)
    &&& a.y < b.y + b.height
    &&& a.y + a.height > b.y
}

/// Whether two nodes' boxes intersect.
pub fn intersects(a: &LayoutNode, b: &LayoutNode) -> (r: bool)
    ensures
        r == boxes_overlap(*a, *b),
{
    let ah = crate::arith::div_trunc(a.width, 2);
    let bh = crate::arith::div_trunc(b.width, 2);
    let horizontal = (a.x as i128 - ah as i128) < (b.x as i128 + bh as i128) && (a.x as i128
        + ah as i128) > (b.x as i128 - bh as i128);
    let vertical = (a.y as i128) < (b.y as i128 + b.height as i128) && (a.y as i128
        + a.height as i128) > (b.y as i128);
    horizontal && vertical
}

/// Nodes below a common node are comparable: when two subtrees both
/// contain `j`, the root of one lies in the other.
pub proof fn lemma_chain_comparable(s: Seq<LayoutNode>, a: int, b: int, j: int)
    requires
        in_subtree(s, a, j),
        in_subtree(s, b, j),
        a <= b,
    ensures
        in_subtree(s, a, b),
    decreases (if j > 0 { j } else { 0 }),
{
    if j == b {
    } else {
        match s[j].parent {
            Some(p) => {
                lemma_chain_comparable(s, a, b, p as int);
            },
            None => {},
        }
    }
}

/// Subtree membership is transitive.
pub proof fn lemma_in_subtree_trans(s: Seq<LayoutNode>, a: int, b: int, j: int)
    requires
        in_subtree(s, a, b),
        in_subtree(s, b, j),
    ensures
        in_subtree(s, a, j),
    decreases (if j > 0 { j } else { 0 }),
{
    if j == b {
    } else if j <= b || j <= 0 || j >= s.len() {
    } else {
        match s[j].parent {
            Some(p) => {
                if (p as int) < j {
                    lemma_in_subtree_trans(s, a, b, p as int);
                }
            },
            None => {},
        }
    }
}

/// Everything on the parent chain from `j` up to `anc` lies in `anc`'s
/// subtree; in particular `j`'s parent does when `j` is a strict
/// descendant.
pub proof fn lemma_parent_in_subtree(s: Seq<LayoutNode>, anc: int, j: int)
    requires
        arena_wf(s),
        0 <= j < s.len(),
        in_subtree(s, anc, j),
        j != anc,
    ensures
        s[j].parent is Some,
        in_subtree(s, anc, s[j].parent->Some_0 as int),
{
    assert(node_wf(s, j));
}

/// Sharing a shape is transitive.
pub proof fn lemma_same_shape_trans(a: Seq<LayoutNode>, b: Seq<LayoutNode>, c: Seq<LayoutNode>)
    requires
        same_shape(a, b),
        same_shape(b, c),
    ensures
        same_shape(a, c),
{
    assert forall|i: int| 0 <= i < a.len() implies same_shape_at(a, c, i) by {
        assert(same_shape_at(a, b, i));
        assert(same_shape_at(b, c, i));
    }
}

/// Sharing vertical positions is transitive.
pub proof fn lemma_same_y_trans(a: Seq<LayoutNode>, b: Seq<LayoutNode>, c: Seq<LayoutNode>)
    requires
        same_y(a, b),
        same_y(b, c),
    ensures
        same_y(a, c),
{
}

/// Shape equality transfers well-formedness: the structural invariant
/// only reads shape fields and the range of the cached references.
pub proof fn lemma_same_shape_preserves_wf(a: Seq<LayoutNode>, b: Seq<LayoutNode>)
    requires
        arena_wf(a),
        same_shape(a, b),
        forall|i: int|
            0 <= i < b.len() ==> {
                &&& opt_idx_ok(#[trigger] b[i].extreme_left, b.len() as int)
                &&& opt_idx_ok(b[i].extreme_right, b.len() as int)
                &&& opt_idx_ok(b[i].thread_left, b.len() as int)
                &&& opt_idx_ok(b[i].thread_right, b.len() as int)
            },
    ensures
        arena_wf(b),
{
    assert forall|i: int| 0 <= i < b.len() implies node_wf(b, i) by {
        assert(node_wf(a, i));
        assert(same_shape_at(a, b, i));
        if i > 0 {
            let p = b[i].parent->Some_0 as int;
            assert(same_shape_at(a, b, p));
        }
        assert forall|k: int| 0 <= k < b[i].children@.len() implies {
            &&& i < #[trigger] b[i].children@[k] as int
            &&& (b[i].children@[k] as int) < b.len()
            &&& b[b[i].children@[k] as int].parent == Some(i as usize)
            &&& b[b[i].children@[k] as int].order as int == k
        } by {
            assert(same_shape_at(a, b, a[i].children@[k] as int));
        }
    }
}

} // verus!
