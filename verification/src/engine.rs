//! The two-pass tidy layout engine.
//!
//! `LayoutConfig::layout` assigns vertical coordinates (per-level or
//! layered policy), runs the bottom-up first walk that places every
//! subtree relative to its siblings, and the top-down second walk that
//! turns relative positions and accumulated modifiers into absolute x
//! coordinates.  `LayoutConfig::partial_layout` redoes only the work
//! that a set of changed nodes invalidates.
//!
//! Each pass carries a functional specification — `separate_spec`,
//! `first_walk_spec`, `second_walk_spec`, `set_y_spec`,
//! `layered_y_spec`, `layout_spec` — and its contract pins the result
//! to that function of the input state, so a full run is a proved pure
//! function of the tree shape and box sizes.

use vstd::prelude::*;
use crate::arith::{
    clip, clip64, sat_add, sat_sub, sat_add3, sat_addsub, sat_add3_sub, sat_sub3, sat_neg,
    div_trunc, div_rem_us, tdiv,
};
use crate::node::{
    LayoutNode, arena_wf, node_wf, opt_idx_ok, same_shape, same_shape_at, same_state_at, same_y,
    kept_children, extremes_set, lemma_same_shape_preserves_wf, lemma_update_keeps_wf,
    lemma_same_shape_trans, lemma_same_y_trans, in_subtree, lemma_all_under_root,
    lemma_subtree_step, lemma_in_subtree_same_shape, lemma_in_subtree_trans,
    lemma_chain_comparable, lemma_parent_in_subtree,
};
use crate::ylist::{LinkedYList, YEntry};

verus! {

/// Margins and the vertical policy of a layout run.
///
/// `margin` is the minimum parent-to-child vertical gap, `peer_margin`
/// the minimum horizontal gap between neighboring sibling subtrees.
/// With `is_layered` set, all nodes of one depth share a row baseline;
/// `depth_to_y` is that baseline table, rebuilt on every layered run.
pub struct LayoutConfig {
    pub margin: i64,
    pub peer_margin: i64,
    pub is_layered: bool,
    pub depth_to_y: Vec<i64>,
}

impl LayoutConfig {
    pub fn new(margin: i64, peer_margin: i64) -> (r: Self)
        ensures
            r.margin == margin,
            r.peer_margin == peer_margin,
            !r.is_layered,
    {
        LayoutConfig { margin, peer_margin, is_layered: false, depth_to_y: Vec::new() }
    }

    pub fn with_layered(self, layered: bool) -> (r: Self)
        ensures
            r.margin == self.margin,
            r.peer_margin == self.peer_margin,
            r.is_layered == layered,
    {
        LayoutConfig { is_layered: layered, ..self }
    }
}

/// The bottom edge of a node's box: its y plus its height.
pub fn bottom(t: &Vec<LayoutNode>, i: usize) -> (r: i64)
    requires
        (i as int) < t@.len(),
    ensures
        r as int == clip(t@[i as int].y + t@[i as int].height),
{
    sat_add(t[i].y, t[i].height)
}

/// A node with freshly reset layout state: coordinates zeroed, caches
/// cleared, shape fields kept.
pub open spec fn reset_node(n: LayoutNode) -> LayoutNode {
    LayoutNode {
        x: 0,
        y: 0,
        relative_x: 0,
        extreme_left: None,
        extreme_right: None,
        thread_left: None,
        thread_right: None,
        modifier_to_subtree: 0,
        modifier_extreme_left: 0,
        modifier_extreme_right: 0,
        modifier_thread_left: 0,
        modifier_thread_right: 0,
        shift_acceleration: 0,
        shift_change: 0,
        ..n
    }
}

/// Reset one node's layout bookkeeping before a fresh pass.
pub fn init_node(t: &mut Vec<LayoutNode>, i: usize)
    requires
        (i as int) < old(t)@.len(),
    ensures
        final(t)@ =~= old(t)@.update(i as int, reset_node(old(t)@[i as int])),
        kept_children(old(t)@, final(t)@),
{
    let n = &mut t[i];
    n.x = 0;
    n.y = 0;
    n.relative_x = 0;
    n.extreme_left = None;
    n.extreme_right = None;
    n.thread_left = None;
    n.thread_right = None;
    n.modifier_to_subtree = 0;
    n.modifier_extreme_left = 0;
    n.modifier_extreme_right = 0;
    n.modifier_thread_left = 0;
    n.modifier_thread_right = 0;
    n.shift_acceleration = 0;
    n.shift_change = 0;
}

/// The per-level vertical position of a node: the root sits at 0, every
/// other node hangs `margin` below its parent's bottom edge.
pub open spec fn y_parent_step(py: i64, ph: i64, m: i64) -> int {
    clip(clip(py + ph) + m)
}

/// Per-level row policy holds everywhere in the arena.
pub open spec fn per_level_y_ok(s: Seq<LayoutNode>, m: i64) -> bool {
    forall|i: int|
        0 <= i < s.len() ==> (#[trigger] s[i].y) as int == (match s[i].parent {
            Some(p) => y_parent_step(s[p as int].y, s[p as int].height, m),
            None => 0,
        })
}

/// Everything but the vertical coordinate is unchanged, node for node.
pub open spec fn same_except_y(a: Seq<LayoutNode>, b: Seq<LayoutNode>) -> bool {
    &&& a.len() == b.len()
    &&& forall|i: int| 0 <= i < a.len() ==> #[trigger] same_shape_at(a, b, i)
    &&& forall|i: int| 0 <= i < a.len() ==> #[trigger] same_state_at(a, b, i)
}

/// A y-only rewrite keeps the arena well-formed.
pub proof fn lemma_same_except_y_wf(a: Seq<LayoutNode>, b: Seq<LayoutNode>)
    requires
        arena_wf(a),
        same_except_y(a, b),
    ensures
        arena_wf(b),
{
    assert forall|i: int| 0 <= i < a.len() implies same_shape_at(a, b, i) by {
        assert(same_state_at(a, b, i));
    }
    assert forall|i: int|
        0 <= i < b.len() implies {
        &&& opt_idx_ok(#[trigger] b[i].extreme_left, b.len() as int)
        &&& opt_idx_ok(b[i].extreme_right, b.len() as int)
        &&& opt_idx_ok(b[i].thread_left, b.len() as int)
        &&& opt_idx_ok(b[i].thread_right, b.len() as int)
    } by {
        assert(node_wf(a, i));
        assert(same_state_at(a, b, i));
    }
    lemma_same_shape_preserves_wf(a, b);
}

/// The per-level vertical coordinate of node `i`, as a function of the
/// tree shape: 0 at the root, one margin below the parent's bottom
/// otherwise.
pub open spec fn y_of(s: Seq<LayoutNode>, m: i64, i: int) -> i64
    decreases (if i > 0 { i } else { 0 }),
{
    if i < 0 || i >= s.len() {
        0
    } else {
        match s[i].parent {
            Some(p) => if (p as int) < i {
                clip64(clip64(y_of(s, m, p as int) + s[p as int].height) + m)
            } else {
                0
            },
            None => 0,
        }
    }
}

/// The arena after the per-level vertical pass, as a pure function.
pub open spec fn set_y_spec(s: Seq<LayoutNode>, m: i64) -> Seq<LayoutNode> {
    Seq::new(s.len(), |i: int| (LayoutNode { y: y_of(s, m, i), ..s[i] }))
}

/// The arena after the layered vertical pass, as a pure function:
/// every node on the baseline of its depth.
pub open spec fn layered_y_spec(s: Seq<LayoutNode>, m: i64) -> Seq<LayoutNode> {
    Seq::new(s.len(), |i: int| (LayoutNode { y: dty_spec(s, m, s[i].depth as int), ..s[i] }))
}

/// The arena with every node's bookkeeping reset, as a pure function.
pub open spec fn init_spec(s: Seq<LayoutNode>) -> Seq<LayoutNode> {
    Seq::new(s.len(), |i: int| reset_node(s[i]))
}

/// One full layout run as a pure function of the input arena: reset,
/// vertical pass under the configured policy, bottom-up placement,
/// top-down resolution.  `layout` produces exactly this, so equal trees
/// are laid out equally, and a second run reproduces the first.
pub open spec fn layout_spec(s: Seq<LayoutNode>, m: i64, pm: i64, layered: bool) -> Seq<
    LayoutNode,
> {
    let n = s.len() as int;
    let s0 = init_spec(s);
    let sy = (if layered {
        layered_y_spec(s0, m)
    } else {
        set_y_spec(s0, m)
    });
    second_walk_spec(first_walk_spec(sy, n, 0, pm), n, 0, 0)
}

/// The per-level row policy determines every vertical coordinate: an
/// arena of the same shape that satisfies it carries exactly `y_of`.
pub proof fn lemma_y_of_unique(a: Seq<LayoutNode>, b: Seq<LayoutNode>, m: i64, i: int)
    requires
        arena_wf(a),
        same_shape(a, b),
        per_level_y_ok(b, m),
        0 <= i < a.len(),
    ensures
        b[i].y == y_of(a, m, i),
    decreases i,
{
    assert(node_wf(a, i));
    assert(same_shape_at(a, b, i));
    match a[i].parent {
        Some(p) => {
            lemma_y_of_unique(a, b, m, p as int);
            assert(same_shape_at(a, b, p as int));
        },
        None => {},
    }
}

impl LayoutConfig {
    /// Assign per-level vertical coordinates to the whole arena: the
    /// root at 0, every other node `margin` below its parent's bottom.
    /// Parents precede children in the arena, so one index-order pass
    /// is a top-down traversal.
    pub fn set_y(&self, t: &mut Vec<LayoutNode>)
        requires
            arena_wf(old(t)@),
        ensures
            same_except_y(old(t)@, final(t)@),
            per_level_y_ok(final(t)@, self.margin),
            arena_wf(final(t)@),
            final(t)@ =~= set_y_spec(old(t)@, self.margin),
            kept_children(old(t)@, final(t)@),
    {
        let ghost orig = t@;
        let n = t.len();
        for i in 0..n
            invariant
                t@.len() == n == orig.len(),
                arena_wf(orig),
                same_except_y(orig, t@),
                forall|j: int|
                    0 <= j < orig.len() ==> #[trigger] t@[j] == (LayoutNode {
                        y: t@[j].y,
                        ..orig[j]
                    }),
                forall|j: int|
                    0 <= j < i ==> (#[trigger] t@[j].y) as int == (match t@[j].parent {
                        Some(p) => y_parent_step(t@[p as int].y, t@[p as int].height, self.margin),
                        None => 0,
                    }),
        {
            proof {
                assert(node_wf(orig, i as int));
                assert(same_state_at(orig, t@, i as int));
                assert(same_shape_at(orig, t@, i as int));
            }
            let y_val: i64;
            let par = t[i].parent;
            match par {
                Some(p) => {
                    proof {
                        assert(orig[i as int].parent == Some(p));
                        assert((p as int) < i as int);
                    }
                    let py = t[p].y;
                    let ph = t[p].height;
                    y_val = sat_add(sat_add(py, ph), self.margin);
                },
                None => {
                    y_val = 0;
                },
            }
            let ghost pre = t@;
            let node = &mut t[i];
            node.y = y_val;
            proof {
                assert forall|j: int| 0 <= j < orig.len() implies #[trigger] same_shape_at(
                    orig,
                    t@,
                    j,
                ) by {
                    assert(same_shape_at(orig, pre, j));
                    if j != i as int {
                        assert(t@[j] == pre[j]);
                    }
                }
                assert forall|j: int| 0 <= j < orig.len() implies #[trigger] same_state_at(
                    orig,
                    t@,
                    j,
                ) by {
                    assert(same_state_at(orig, pre, j));
                    if j != i as int {
                        assert(t@[j] == pre[j]);
                    }
                }
                assert forall|j: int|
                    0 <= j < i + 1 implies (#[trigger] t@[j].y) as int == (match t@[j].parent {
                    Some(p) => y_parent_step(t@[p as int].y, t@[p as int].height, self.margin),
                    None => 0,
                }) by {
                    if j < i as int {
                        assert(t@[j].y == pre[j].y);
                        if pre[j].parent is Some {
                            let p = pre[j].parent->Some_0 as int;
                            assert(node_wf(orig, j));
                            assert(same_state_at(orig, pre, j));
                            assert(same_shape_at(orig, pre, j));
                            assert(p < j);
                            assert(t@[p] == pre[p]);
                        }
                    } else {
                        assert(t@[j].y == y_val);
                    }
                }
                assert(same_except_y(orig, t@));
            }
        }
        proof {
            lemma_same_except_y_wf(orig, t@);
            assert forall|i2: int| 0 <= i2 < orig.len() implies t@[i2] == set_y_spec(
                orig,
                self.margin,
            )[i2] by {
                assert(same_state_at(orig, t@, i2));
                assert(same_shape_at(orig, t@, i2));
                lemma_y_of_unique(orig, t@, self.margin, i2);
                assert(t@[i2] == (LayoutNode { y: t@[i2].y, ..orig[i2] }));
            }
            assert(t@ =~= set_y_spec(orig, self.margin));
            assert forall|i2: int|
                0 <= i2 < orig.len() implies #[trigger] t@[i2].children == orig[i2].children by {
                assert(t@[i2] == (LayoutNode { y: t@[i2].y, ..orig[i2] }));
            }
        }
    }
}

/// The node value `set_extremes` writes: a leaf is its own extreme on
/// both sides with zero offsets; an inner node inherits the left
/// extreme of its first child and the right extreme of its last child,
/// each offset by that child's subtree modifier.
pub open spec fn extremes_of(s: Seq<LayoutNode>, i: int) -> LayoutNode {
    let n = s[i];
    if n.children@.len() == 0 {
        LayoutNode {
            extreme_left: Some(i as usize),
            extreme_right: Some(i as usize),
            modifier_extreme_left: 0,
            modifier_extreme_right: 0,
            ..n
        }
    } else {
        let f = s[n.children@[0] as int];
        let l = s[n.children@[n.children@.len() - 1] as int];
        LayoutNode {
            extreme_left: f.extreme_left,
            modifier_extreme_left: clip64(f.modifier_to_subtree + f.modifier_extreme_left),
            extreme_right: l.extreme_right,
            modifier_extreme_right: clip64(l.modifier_to_subtree + l.modifier_extreme_right),
            ..n
        }
    }
}

/// Cache a node's extreme pointers and offsets in O(1) from its
/// children, never by re-descending the subtree.
pub fn set_extremes(t: &mut Vec<LayoutNode>, i: usize)
    requires
        arena_wf(old(t)@),
        (i as int) < old(t)@.len(),
    ensures
        final(t)@ =~= old(t)@.update(i as int, extremes_of(old(t)@, i as int)),
        arena_wf(final(t)@),
        same_shape(old(t)@, final(t)@),
        same_y(old(t)@, final(t)@),
        kept_children(old(t)@, final(t)@),
{
    proof {
        assert(node_wf(t@, i as int));
    }
    let cs = t[i].children.len();
    if cs == 0 {
        let n = &mut t[i];
        n.extreme_left = Some(i);
        n.extreme_right = Some(i);
        n.modifier_extreme_left = 0;
        n.modifier_extreme_right = 0;
    } else {
        let first = t[i].children[0];
        let last = t[i].children[cs - 1];
        proof {
            assert(node_wf(t@, first as int));
            assert(node_wf(t@, last as int));
        }
        let fel = t[first].extreme_left;
        let fmod = sat_add(t[first].modifier_to_subtree, t[first].modifier_extreme_left);
        let ler = t[last].extreme_right;
        let lmod = sat_add(t[last].modifier_to_subtree, t[last].modifier_extreme_right);
        let n = &mut t[i];
        n.extreme_left = fel;
        n.modifier_extreme_left = fmod;
        n.extreme_right = ler;
        n.modifier_extreme_right = lmod;
    }
    proof {
        lemma_update_keeps_wf(old(t)@, i as int, extremes_of(old(t)@, i as int));
    }
}

/// The next node downward on a subtree's left contour: the first child
/// when there is one, else the cached left thread.
pub fn next_left_contour(t: &Vec<LayoutNode>, i: usize) -> (r: Option<usize>)
    requires
        arena_wf(t@),
        (i as int) < t@.len(),
    ensures
        r == (if t@[i as int].children@.len() == 0 {
            t@[i as int].thread_left
        } else {
            Some(t@[i as int].children@[0])
        }),
        opt_idx_ok(r, t@.len() as int),
{
    proof {
        assert(node_wf(t@, i as int));
    }
    if t[i].children.len() == 0 {
        t[i].thread_left
    } else {
        Some(t[i].children[0])
    }
}

/// The next node downward on a subtree's right contour: the last child
/// when there is one, else the cached right thread.
pub fn next_right_contour(t: &Vec<LayoutNode>, i: usize) -> (r: Option<usize>)
    requires
        arena_wf(t@),
        (i as int) < t@.len(),
    ensures
        r == (if t@[i as int].children@.len() == 0 {
            t@[i as int].thread_right
        } else {
            Some(t@[i as int].children@[t@[i as int].children@.len() - 1])
        }),
        opt_idx_ok(r, t@.len() as int),
{
    proof {
        assert(node_wf(t@, i as int));
    }
    let cs = t[i].children.len();
    if cs == 0 {
        t[i].thread_right
    } else {
        Some(t[i].children[cs - 1])
    }
}

/// A cursor walking one contour of a subtree, one row at a time.
///
/// `current` is the contour node reached so far (`None` once the
/// contour is exhausted) and `modifier_sum` the accumulated offset that
/// turns that node's relative position into a position in the frame of
/// the subtree the walk started from.
pub struct Contour {
    pub is_left: bool,
    pub current: Option<usize>,
    pub modifier_sum: i64,
}

impl Contour {
    /// Start a walk at subtree root `i`.
    pub fn new(is_left: bool, t: &Vec<LayoutNode>, i: usize) -> (r: Self)
        requires
            (i as int) < t@.len(),
        ensures
            r.is_left == is_left,
            r.current == Some(i),
            r.modifier_sum == t@[i as int].modifier_to_subtree,
    {
        Contour { is_left, current: Some(i), modifier_sum: t[i].modifier_to_subtree }
    }

    /// The walk is exhausted.
    pub fn is_none(&self) -> (r: bool)
        ensures
            r == (self.current is None),
    {
        self.current.is_none()
    }

    /// Left edge of the current contour box, in the walk's frame.
    pub fn left(&self, t: &Vec<LayoutNode>) -> (r: i64)
        requires
            self.current is Some,
            (self.current->Some_0 as int) < t@.len(),
    ensures
            ({
                let n = t@[self.current->Some_0 as int];
                r == clip64(self.modifier_sum + n.relative_x - tdiv(n.width as int, 2))
            }),
    {
        let c = self.current.unwrap();
        let half = div_trunc(t[c].width, 2);
        sat_addsub(self.modifier_sum, t[c].relative_x, half)
    }

    /// Right edge of the current contour box, in the walk's frame.
    pub fn right(&self, t: &Vec<LayoutNode>) -> (r: i64)
        requires
            self.current is Some,
            (self.current->Some_0 as int) < t@.len(),
        ensures
            ({
                let n = t@[self.current->Some_0 as int];
                r == clip64(self.modifier_sum + n.relative_x + tdiv(n.width as int, 2))
            }),
    {
        let c = self.current.unwrap();
        let half = div_trunc(t[c].width, 2);
        sat_add3(self.modifier_sum, t[c].relative_x, half)
    }

    /// Bottom edge of the current contour box; 0 once exhausted.
    pub fn bottom(&self, t: &Vec<LayoutNode>) -> (r: i64)
        requires
            opt_idx_ok(self.current, t@.len() as int),
        ensures
            r == (match self.current {
                Some(c) => clip64(t@[c as int].y + t@[c as int].height),
                None => 0,
            }),
    {
        match self.current {
            Some(c) => sat_add(t[c].y, t[c].height),
            None => 0,
        }
    }

    /// Step one row down: into the first/last child when there is one,
    /// else across the cached thread, accumulating the matching offset.
    pub fn next(&mut self, t: &Vec<LayoutNode>)
        requires
            arena_wf(t@),
            opt_idx_ok(old(self).current, t@.len() as int),
        ensures
            final(self).is_left == old(self).is_left,
            opt_idx_ok(final(self).current, t@.len() as int),
            (match old(self).current {
                None => *final(self) == *old(self),
                Some(c) => {
                    let n = t@[c as int];
                    if old(self).is_left {
                        if n.children@.len() > 0 {
                            &&& final(self).current == Some(n.children@[0])
                            &&& final(self).modifier_sum == clip64(
                                old(self).modifier_sum + t@[n.children@[0] as int].modifier_to_subtree,
                            )
                        } else {
                            &&& final(self).current == n.thread_left
                            &&& final(self).modifier_sum == clip64(
                                old(self).modifier_sum + n.modifier_thread_left,
                            )
                        }
                    } else {
                        if n.children@.len() > 0 {
                            &&& final(self).current == Some(
                                n.children@[n.children@.len() - 1],
                            )
                            &&& final(self).modifier_sum == clip64(
                                old(self).modifier_sum + t@[n.children@[n.children@.len() - 1] as int].modifier_to_subtree,
                            )
                        } else {
                            &&& final(self).current == n.thread_right
                            &&& final(self).modifier_sum == clip64(
                                old(self).modifier_sum + n.modifier_thread_right,
                            )
                        }
                    }
                },
            }),
    {
        match self.current {
            Some(c) => {
                proof {
                    assert(node_wf(t@, c as int));
                }
                let cs = t[c].children.len();
                if self.is_left {
                    if cs > 0 {
                        let child = t[c].children[0];
                        self.modifier_sum = sat_add(self.modifier_sum, t[child].modifier_to_subtree);
                        self.current = Some(child);
                    } else {
                        self.modifier_sum = sat_add(self.modifier_sum, t[c].modifier_thread_left);
                        self.current = t[c].thread_left;
                    }
                } else {
                    if cs > 0 {
                        let child = t[c].children[cs - 1];
                        self.modifier_sum = sat_add(self.modifier_sum, t[child].modifier_to_subtree);
                        self.current = Some(child);
                    } else {
                        self.modifier_sum = sat_add(self.modifier_sum, t[c].modifier_thread_right);
                        self.current = t[c].thread_right;
                    }
                }
            },
            None => {},
        }
    }
}

/// The arena after `distribute_extra`: when siblings sit strictly
/// between the push's source and target, the first of them gains a
/// shift of `distance / nr` per gap and the moved child compensates, so
/// that one later prefix-sum pass spreads the push evenly.
pub open spec fn distribute_extra_spec(
    s: Seq<LayoutNode>,
    v: int,
    i: int,
    si: int,
    d: i64,
) -> Seq<LayoutNode> {
    if si == i - 1 {
        s
    } else {
        let nr = i - si;
        let q = tdiv(d as int, nr);
        let r = d - q * nr;
        let c1 = s[v].children@[si + 1] as int;
        let c2 = s[v].children@[i] as int;
        let s1 = s.update(
            c1,
            (LayoutNode { shift_acceleration: clip64(s[c1].shift_acceleration + q), ..s[c1] }),
        );
        s1.update(
            c2,
            (LayoutNode {
                shift_acceleration: clip64(s1[c2].shift_acceleration - q),
                shift_change: clip64(s1[c2].shift_change + q + r - d),
                ..s1[c2]
            }),
        )
    }
}

/// Stash the spacing deltas that spread a push of `d` across the
/// siblings between `si` and `i` of node `v`.
pub fn distribute_extra(t: &mut Vec<LayoutNode>, v: usize, i: usize, si: usize, d: i64)
    requires
        arena_wf(old(t)@),
        (v as int) < old(t)@.len(),
        si < i,
        d >= 0,
        (i as int) < old(t)@[v as int].children@.len(),
    ensures
        final(t)@ =~= distribute_extra_spec(old(t)@, v as int, i as int, si as int, d),
        arena_wf(final(t)@),
        same_shape(old(t)@, final(t)@),
        same_y(old(t)@, final(t)@),
        same_extremes(old(t)@, final(t)@),
        kept_children(old(t)@, final(t)@),
{
    proof {
        assert(node_wf(t@, v as int));
    }
    if si != i - 1 {
        let nr = i - si;
        let (q, r) = div_rem_us(d, nr);
        let c1 = t[v].children[si + 1];
        let c2 = t[v].children[i];
        proof {
            assert(t@[c1 as int].order as int == si + 1);
            assert(t@[c2 as int].order as int == i as int);
        }
        let ghost s0 = t@;
        let n1 = &mut t[c1];
        let sa1 = sat_add(n1.shift_acceleration, q);
        n1.shift_acceleration = sa1;
        proof {
            assert(node_wf(s0, c1 as int));
            lemma_update_keeps_wf(s0, c1 as int, t@[c1 as int]);
        }
        let ghost s1 = t@;
        let n2 = &mut t[c2];
        let sa2 = sat_sub(n2.shift_acceleration, q);
        let sc2 = sat_add3_sub(n2.shift_change, q, r, d);
        n2.shift_acceleration = sa2;
        n2.shift_change = sc2;
        proof {
            assert(node_wf(s1, c2 as int));
            lemma_update_keeps_wf(s1, c2 as int, t@[c2 as int]);
        }
    }
}

/// The arena after `move_subtree`: child `i` of `v` and everything
/// under it move right by `d` via its subtree modifier, and the push is
/// recorded for even distribution across the intervening siblings.
pub open spec fn move_subtree_spec(
    s: Seq<LayoutNode>,
    v: int,
    i: int,
    si: int,
    d: i64,
) -> Seq<LayoutNode> {
    let c = s[v].children@[i] as int;
    let s1 = s.update(
        c,
        (LayoutNode { modifier_to_subtree: clip64(s[c].modifier_to_subtree + d), ..s[c] }),
    );
    distribute_extra_spec(s1, v, i, si, d)
}

/// Move the subtree rooted at child `i` of `v` rightward by `d`.
pub fn move_subtree(t: &mut Vec<LayoutNode>, v: usize, i: usize, si: usize, d: i64)
    requires
        arena_wf(old(t)@),
        (v as int) < old(t)@.len(),
        si < i,
        d >= 0,
        (i as int) < old(t)@[v as int].children@.len(),
    ensures
        final(t)@ =~= move_subtree_spec(old(t)@, v as int, i as int, si as int, d),
        arena_wf(final(t)@),
        same_shape(old(t)@, final(t)@),
        same_y(old(t)@, final(t)@),
        same_extremes(old(t)@, final(t)@),
        kept_children(old(t)@, final(t)@),
{
    proof {
        assert(node_wf(t@, v as int));
    }
    let c = t[v].children[i];
    let ghost s0 = t@;
    let n = &mut t[c];
    let m = sat_add(n.modifier_to_subtree, d);
    n.modifier_to_subtree = m;
    proof {
        assert(node_wf(s0, c as int));
        lemma_update_keeps_wf(s0, c as int, t@[c as int]);
        assert(t@[v as int].children@ == s0[v as int].children@);
    }
    distribute_extra(t, v, i, si, d);
}

/// The node value `position_root` writes: the parent centered on the
/// midpoint of its first and last child, and its subtree modifier set
/// to the exact negation so that the next separation starts from a
/// guaranteed overlap.
pub open spec fn position_root_spec(s: Seq<LayoutNode>, v: int) -> LayoutNode {
    let n = s[v];
    let f = s[n.children@[0] as int];
    let l = s[n.children@[n.children@.len() - 1] as int];
    let fp = clip(f.relative_x + f.modifier_to_subtree);
    let lp = clip(l.relative_x + l.modifier_to_subtree);
    let mid = tdiv(clip(fp + lp), 2);
    LayoutNode { relative_x: clip64(mid), modifier_to_subtree: clip64(-mid), ..n }
}

/// Center a parent over the span of its children.
pub fn position_root(t: &mut Vec<LayoutNode>, v: usize)
    requires
        arena_wf(old(t)@),
        (v as int) < old(t)@.len(),
        old(t)@[v as int].children@.len() > 0,
    ensures
        final(t)@ =~= old(t)@.update(v as int, position_root_spec(old(t)@, v as int)),
        arena_wf(final(t)@),
        same_shape(old(t)@, final(t)@),
        same_y(old(t)@, final(t)@),
        same_extremes(old(t)@, final(t)@),
        kept_children(old(t)@, final(t)@),
{
    proof {
        assert(node_wf(t@, v as int));
    }
    let cs = t[v].children.len();
    let f = t[v].children[0];
    let l = t[v].children[cs - 1];
    let fp = sat_add(t[f].relative_x, t[f].modifier_to_subtree);
    let lp = sat_add(t[l].relative_x, t[l].modifier_to_subtree);
    let mid = div_trunc(sat_add(fp, lp), 2);
    let neg = sat_neg(mid);
    let n = &mut t[v];
    n.relative_x = mid;
    n.modifier_to_subtree = neg;
    proof {
        assert(clip(mid as int) == mid as int);
        assert(node_wf(old(t)@, v as int));
        lemma_update_keeps_wf(old(t)@, v as int, t@[v as int]);
    }
}

/// The arena after the spacing pass over the children of `v`, starting
/// at child `k` with running shift `d` and running offset `delta`: each
/// child's deferred shifts fold into its subtree modifier by prefix
/// sum, and the deferred fields reset to zero.
pub open spec fn apply_spacing(
    s: Seq<LayoutNode>,
    cs: Seq<usize>,
    k: int,
    d: i64,
    delta: i64,
) -> Seq<LayoutNode>
    decreases cs.len() - k,
{
    if k < 0 || k >= cs.len() || cs[k] as int >= s.len() {
        s
    } else {
        let c = cs[k] as int;
        let d2 = clip64(d + s[c].shift_acceleration);
        let delta2 = clip64(delta + d2 + s[c].shift_change);
        let s1 = s.update(
            c,
            (LayoutNode {
                modifier_to_subtree: clip64(s[c].modifier_to_subtree + delta2),
                shift_acceleration: 0,
                shift_change: 0,
                ..s[c]
            }),
        );
        apply_spacing(s1, cs, k + 1, d2, delta2)
    }
}

/// Fold the deferred spacing deltas of the children of `v` into their
/// subtree modifiers in one prefix-sum pass.
pub fn add_child_spacing(t: &mut Vec<LayoutNode>, v: usize)
    requires
        arena_wf(old(t)@),
        (v as int) < old(t)@.len(),
    ensures
        final(t)@ =~= apply_spacing(old(t)@, old(t)@[v as int].children@, 0, 0, 0),
        arena_wf(final(t)@),
        same_shape(old(t)@, final(t)@),
        same_y(old(t)@, final(t)@),
        same_extremes(old(t)@, final(t)@),
        kept_children(old(t)@, final(t)@),
{
    let ghost orig = t@;
    let ghost cseq = t@[v as int].children@;
    let cs = t[v].children.len();
    let mut d: i64 = 0;
    let mut delta: i64 = 0;
    let mut k: usize = 0;
    while k < cs
        invariant
            arena_wf(t@),
            same_shape(orig, t@),
            same_y(orig, t@),
            same_extremes(orig, t@),
            kept_children(orig, t@),
            (v as int) < t@.len(),
            k <= cs,
            cseq == orig[v as int].children@,
            cseq == t@[v as int].children@,
            cs == cseq.len(),
            apply_spacing(t@, cseq, k as int, d, delta) =~= apply_spacing(orig, cseq, 0, 0, 0),
        decreases cs - k,
    {
        proof {
            assert(node_wf(t@, v as int));
        }
        let c = t[v].children[k];
        let ghost pre = t@;
        let d2 = sat_add(d, t[c].shift_acceleration);
        let delta2 = sat_add3(delta, d2, t[c].shift_change);
        let m = sat_add(t[c].modifier_to_subtree, delta2);
        let n = &mut t[c];
        n.modifier_to_subtree = m;
        n.shift_acceleration = 0;
        n.shift_change = 0;
        proof {
            assert(node_wf(pre, c as int));
            lemma_update_keeps_wf(pre, c as int, t@[c as int]);
            lemma_same_shape_trans(orig, pre, t@);
            lemma_same_y_trans(orig, pre, t@);
            assert(same_extremes(orig, t@));
            assert forall|j: int|
                0 <= j < orig.len() implies #[trigger] t@[j].children == orig[j].children by {
                assert(pre[j].children == orig[j].children);
            }
            assert(t@ =~= pre.update(
                c as int,
                (LayoutNode {
                    modifier_to_subtree: clip64(pre[c as int].modifier_to_subtree + delta2),
                    shift_acceleration: 0,
                    shift_change: 0,
                    ..pre[c as int]
                }),
            ));
            assert(apply_spacing(pre, cseq, k as int, d, delta) =~= apply_spacing(
                t@,
                cseq,
                k as int + 1,
                d2,
                delta2,
            ));
        }
        d = d2;
        delta = delta2;
        k = k + 1;
    }
}

/// The extreme caches of every node are untouched.
pub open spec fn same_extremes(a: Seq<LayoutNode>, b: Seq<LayoutNode>) -> bool {
    &&& a.len() == b.len()
    &&& forall|j: int|
        0 <= j < a.len() ==> #[trigger] b[j].extreme_left == a[j].extreme_left
            && b[j].extreme_right == a[j].extreme_right
}

/// No node loses its extreme caches.
pub open spec fn keeps_extremes(a: Seq<LayoutNode>, b: Seq<LayoutNode>) -> bool {
    forall|j: int| 0 <= j < a.len() && extremes_set(a, j) ==> #[trigger] extremes_set(b, j)
}

/// The arena after `set_left_thread`: the left extreme of the first
/// child gains a thread to `target` with the offset that keeps the
/// target's absolute position derivable, and the first child adopts the
/// taller new subtree's left extreme.
pub open spec fn set_left_thread_spec(
    s: Seq<LayoutNode>,
    v: int,
    ci: int,
    target: usize,
    modifier: i64,
) -> Seq<LayoutNode> {
    let first = s[v].children@[0] as int;
    let current = s[v].children@[ci] as int;
    let fel = s[first].extreme_left->Some_0 as int;
    let diff = clip64(modifier - s[first].modifier_extreme_left - s[first].modifier_to_subtree);
    let s1 = s.update(
        fel,
        (LayoutNode { thread_left: Some(target), modifier_thread_left: diff, ..s[fel] }),
    );
    s1.update(
        first,
        (LayoutNode {
            extreme_left: s1[current].extreme_left,
            modifier_extreme_left: clip64(
                s1[current].modifier_extreme_left + s1[current].modifier_to_subtree
                    - s1[first].modifier_to_subtree,
            ),
            ..s1[first]
        }),
    )
}

/// Install a left thread after child `ci`'s subtree outlasted the left
/// siblings' contour.
pub fn set_left_thread(t: &mut Vec<LayoutNode>, v: usize, ci: usize, target: usize, modifier: i64)
    requires
        arena_wf(old(t)@),
        (v as int) < old(t)@.len(),
        0 < ci < old(t)@[v as int].children@.len(),
        (target as int) < old(t)@.len(),
        old(t)@[old(t)@[v as int].children@[0] as int].extreme_left is Some,
        extremes_set(old(t)@, old(t)@[v as int].children@[ci as int] as int),
    ensures
        final(t)@ =~= set_left_thread_spec(old(t)@, v as int, ci as int, target, modifier),
        arena_wf(final(t)@),
        same_shape(old(t)@, final(t)@),
        same_y(old(t)@, final(t)@),
        keeps_extremes(old(t)@, final(t)@),
        kept_children(old(t)@, final(t)@),
{
    proof {
        assert(node_wf(t@, v as int));
    }
    let cs = t[v].children.len();
    let first = t[v].children[0];
    let current = t[v].children[ci];
    proof {
        assert(node_wf(t@, first as int));
    }
    let diff = sat_sub3(modifier, t[first].modifier_extreme_left, t[first].modifier_to_subtree);
    let fel = match t[first].extreme_left {
        Some(e) => e,
        None => 0,  // excluded by the precondition
    };
    let ghost s0 = t@;
    let n1 = &mut t[fel];
    n1.thread_left = Some(target);
    n1.modifier_thread_left = diff;
    proof {
        assert(node_wf(s0, fel as int));
        lemma_update_keeps_wf(s0, fel as int, t@[fel as int]);
    }
    let ghost s1 = t@;
    let cel = t[current].extreme_left;
    let mel = sat_addsub(
        t[current].modifier_extreme_left,
        t[current].modifier_to_subtree,
        t[first].modifier_to_subtree,
    );
    let n2 = &mut t[first];
    n2.extreme_left = cel;
    n2.modifier_extreme_left = mel;
    proof {
        assert(node_wf(s1, first as int));
        assert(node_wf(s1, current as int));
        lemma_update_keeps_wf(s1, first as int, t@[first as int]);
        lemma_same_shape_trans(s0, s1, t@);
        lemma_same_y_trans(s0, s1, t@);
    }
}

/// The arena after `set_right_thread`, mirror image of the left case.
pub open spec fn set_right_thread_spec(
    s: Seq<LayoutNode>,
    v: int,
    ci: int,
    target: usize,
    modifier: i64,
) -> Seq<LayoutNode> {
    let current = s[v].children@[ci] as int;
    let prev = s[v].children@[ci - 1] as int;
    let cer = s[current].extreme_right->Some_0 as int;
    let diff = clip64(
        modifier - s[current].modifier_extreme_right - s[current].modifier_to_subtree,
    );
    let s1 = s.update(
        cer,
        (LayoutNode { thread_right: Some(target), modifier_thread_right: diff, ..s[cer] }),
    );
    s1.update(
        current,
        (LayoutNode {
            extreme_right: s1[prev].extreme_right,
            modifier_extreme_right: clip64(
                s1[prev].modifier_extreme_right + s1[prev].modifier_to_subtree
                    - s1[current].modifier_to_subtree,
            ),
            ..s1[current]
        }),
    )
}

/// Install a right thread after the left siblings' contour outlasted
/// child `ci`'s subtree.
pub fn set_right_thread(t: &mut Vec<LayoutNode>, v: usize, ci: usize, target: usize, modifier: i64)
    requires
        arena_wf(old(t)@),
        (v as int) < old(t)@.len(),
        0 < ci < old(t)@[v as int].children@.len(),
        (target as int) < old(t)@.len(),
        old(t)@[old(t)@[v as int].children@[ci as int] as int].extreme_right is Some,
        extremes_set(old(t)@, old(t)@[v as int].children@[ci - 1] as int),
    ensures
        final(t)@ =~= set_right_thread_spec(old(t)@, v as int, ci as int, target, modifier),
        arena_wf(final(t)@),
        same_shape(old(t)@, final(t)@),
        same_y(old(t)@, final(t)@),
        keeps_extremes(old(t)@, final(t)@),
        kept_children(old(t)@, final(t)@),
{
    proof {
        assert(node_wf(t@, v as int));
    }
    let current = t[v].children[ci];
    let prev = t[v].children[ci - 1];
    proof {
        assert(node_wf(t@, current as int));
    }
    let diff = sat_sub3(modifier, t[current].modifier_extreme_right, t[current].modifier_to_subtree);
    let cer = match t[current].extreme_right {
        Some(e) => e,
        None => 0,  // excluded by the precondition
    };
    let ghost s0 = t@;
    let n1 = &mut t[cer];
    n1.thread_right = Some(target);
    n1.modifier_thread_right = diff;
    proof {
        assert(node_wf(s0, cer as int));
        lemma_update_keeps_wf(s0, cer as int, t@[cer as int]);
    }
    let ghost s1 = t@;
    let per = t[prev].extreme_right;
    let mer = sat_addsub(
        t[prev].modifier_extreme_right,
        t[prev].modifier_to_subtree,
        t[current].modifier_to_subtree,
    );
    let n2 = &mut t[current];
    n2.extreme_right = per;
    n2.modifier_extreme_right = mer;
    proof {
        assert(node_wf(s1, current as int));
        assert(node_wf(s1, prev as int));
        lemma_update_keeps_wf(s1, current as int, t@[current as int]);
        lemma_same_shape_trans(s0, s1, t@);
        lemma_same_y_trans(s0, s1, t@);
    }
}

/// The bottom edge a contour cursor currently sees; 0 once exhausted.
pub open spec fn contour_bottom_spec(s: Seq<LayoutNode>, c: Contour) -> i64 {
    match c.current {
        Some(k) => clip64(s[k as int].y + s[k as int].height),
        None => 0,
    }
}

/// The right edge of the cursor's current box, in the walk's frame.
pub open spec fn contour_right_spec(s: Seq<LayoutNode>, c: Contour) -> i64 {
    match c.current {
        Some(k) => clip64(
            c.modifier_sum + s[k as int].relative_x + tdiv(s[k as int].width as int, 2),
        ),
        None => 0,
    }
}

/// The left edge of the cursor's current box, in the walk's frame.
pub open spec fn contour_left_spec(s: Seq<LayoutNode>, c: Contour) -> i64 {
    match c.current {
        Some(k) => clip64(
            c.modifier_sum + s[k as int].relative_x - tdiv(s[k as int].width as int, 2),
        ),
        None => 0,
    }
}

/// One step of a contour walk: into the first/last child when there is
/// one, else across the cached thread, accumulating the offset.
pub open spec fn contour_next_spec(s: Seq<LayoutNode>, c: Contour) -> Contour {
    match c.current {
        None => c,
        Some(k) => {
            let nd = s[k as int];
            if c.is_left {
                if nd.children@.len() > 0 {
                    Contour {
                        is_left: c.is_left,
                        current: Some(nd.children@[0]),
                        modifier_sum: clip64(
                            c.modifier_sum + s[nd.children@[0] as int].modifier_to_subtree,
                        ),
                    }
                } else {
                    Contour {
                        is_left: c.is_left,
                        current: nd.thread_left,
                        modifier_sum: clip64(c.modifier_sum + nd.modifier_thread_left),
                    }
                }
            } else {
                if nd.children@.len() > 0 {
                    Contour {
                        is_left: c.is_left,
                        current: Some(nd.children@[nd.children@.len() - 1]),
                        modifier_sum: clip64(
                            c.modifier_sum + s[nd.children@[nd.children@.len() - 1] as int].modifier_to_subtree,
                        ),
                    }
                } else {
                    Contour {
                        is_left: c.is_left,
                        current: nd.thread_right,
                        modifier_sum: clip64(c.modifier_sum + nd.modifier_thread_right),
                    }
                }
            }
        },
    }
}

/// The lock-step contour walk of `separate`, as a pure function: the
/// arena and both cursors and the y-list after the walk has run out of
/// one contour, of fuel, or of y-list entries.
pub open spec fn separate_loop_spec(
    s: Seq<LayoutNode>,
    v: int,
    ci: int,
    left: Contour,
    right: Contour,
    yl: Seq<YEntry>,
    pm: i64,
    fuel: int,
) -> (Seq<LayoutNode>, Contour, Contour, Seq<YEntry>)
    decreases fuel,
{
    if fuel <= 0 || left.current is None || right.current is None || yl.len() == 0 {
        (s, left, right, yl)
    } else {
        let yl1 = (if contour_bottom_spec(s, left) > yl.last().low_y {
            yl.drop_last()
        } else {
            yl
        });
        if yl1.len() == 0 {
            // both contours alive but the y-list ran out: the walk stops
            (s, left, right, yl)
        } else {
            let dist = clip64(
                contour_right_spec(s, left) + pm - contour_left_spec(s, right),
            );
            let s1 = (if dist > 0 {
                move_subtree_spec(s, v, ci, yl1.last().index as int, dist)
            } else {
                s
            });
            let right1 = (if dist > 0 {
                Contour {
                    is_left: right.is_left,
                    current: right.current,
                    modifier_sum: clip64(right.modifier_sum + dist),
                }
            } else {
                right
            });
            let lb = contour_bottom_spec(s1, left);
            let rb = contour_bottom_spec(s1, right1);
            let left2 = (if lb <= rb {
                contour_next_spec(s1, left)
            } else {
                left
            });
            let right2 = (if lb >= rb {
                contour_next_spec(s1, right1)
            } else {
                right1
            });
            separate_loop_spec(s1, v, ci, left2, right2, yl1, pm, fuel - 1)
        }
    }
}

/// `separate` as a pure function of the input state: the contour walk
/// above followed by the thread installation on whichever side ran
/// out, and the y-list it hands back.
pub open spec fn separate_spec(
    s: Seq<LayoutNode>,
    v: int,
    ci: int,
    yl: Seq<YEntry>,
    pm: i64,
) -> (Seq<LayoutNode>, Seq<YEntry>) {
    let left0 = Contour {
        is_left: false,
        current: Some(s[v].children@[ci - 1]),
        modifier_sum: s[s[v].children@[ci - 1] as int].modifier_to_subtree,
    };
    let right0 = Contour {
        is_left: true,
        current: Some(s[v].children@[ci]),
        modifier_sum: s[s[v].children@[ci] as int].modifier_to_subtree,
    };
    let walked = separate_loop_spec(s, v, ci, left0, right0, yl, pm, s.len() as int + 1);
    let s1 = walked.0;
    let left = walked.1;
    let right = walked.2;
    let yl1 = walked.3;
    if left.current is None && right.current is Some {
        (set_left_thread_spec(s1, v, ci, right.current->Some_0, right.modifier_sum), yl1)
    } else if left.current is Some && right.current is None {
        (set_right_thread_spec(s1, v, ci, left.current->Some_0, left.modifier_sum), yl1)
    } else {
        (s1, yl1)
    }
}

/// Walk the right contour of the already-placed siblings and the left
/// contour of child `ci`'s subtree in lock step, pushing the new
/// subtree right just enough to clear each row, and install a thread
/// from whichever contour ran out first to the survivor.
pub fn separate(
    t: &mut Vec<LayoutNode>,
    v: usize,
    ci: usize,
    y_list: LinkedYList,
    peer_margin: i64,
) -> (r: LinkedYList)
    requires
        arena_wf(old(t)@),
        old(t)@.len() < usize::MAX,
        (v as int) < old(t)@.len(),
        0 < ci < old(t)@[v as int].children@.len(),
        y_list@.len() >= 1,
        forall|k: int| 0 <= k < y_list@.len() ==> (#[trigger] y_list@[k].index as int) < ci as int,
        extremes_set(old(t)@, old(t)@[v as int].children@[0] as int),
        extremes_set(old(t)@, old(t)@[v as int].children@[ci - 1] as int),
        extremes_set(old(t)@, old(t)@[v as int].children@[ci as int] as int),
    ensures
        arena_wf(final(t)@),
        same_shape(old(t)@, final(t)@),
        same_y(old(t)@, final(t)@),
        keeps_extremes(old(t)@, final(t)@),
        extremes_set(final(t)@, final(t)@[v as int].children@[0] as int),
        extremes_set(final(t)@, final(t)@[v as int].children@[ci as int] as int),
        r@.len() >= 1,
        forall|k: int| 0 <= k < r@.len() ==> (#[trigger] r@[k].index as int) < ci as int,
        final(t)@ =~= separate_spec(old(t)@, v as int, ci as int, y_list@, peer_margin).0,
        r@ == separate_spec(old(t)@, v as int, ci as int, y_list@, peer_margin).1,
        kept_children(old(t)@, final(t)@),
{
    let ghost orig = t@;
    let ghost c0 = t@[v as int].children@[0] as int;
    let ghost cprev = t@[v as int].children@[ci - 1] as int;
    let ghost cci = t@[v as int].children@[ci as int] as int;
    proof {
        assert(node_wf(t@, v as int));
    }
    let left_start = t[v].children[ci - 1];
    let right_start = t[v].children[ci];
    let mut left = Contour::new(false, t, left_start);
    let mut right = Contour::new(true, t, right_start);
    let ghost left_init = left;
    let ghost right_init = right;
    let mut yl = y_list;
    let mut fuel = t.len() + 1;
    let ghost fuel_init = fuel as int;
    let mut done = false;
    while !done && !left.is_none() && !right.is_none() && fuel > 0
        invariant
            arena_wf(t@),
            same_shape(orig, t@),
            same_y(orig, t@),
            same_extremes(orig, t@),
            (v as int) < t@.len(),
            0 < ci < t@[v as int].children@.len(),
            t@[v as int].children@ == orig[v as int].children@,
            yl@.len() >= 1,
            forall|k: int| 0 <= k < yl@.len() ==> (#[trigger] yl@[k].index as int) < ci as int,
            opt_idx_ok(left.current, t@.len() as int),
            opt_idx_ok(right.current, t@.len() as int),
            kept_children(orig, t@),
            separate_loop_spec(t@, v as int, ci as int, left, right, yl@, peer_margin, fuel as int)
                == separate_loop_spec(
                orig,
                v as int,
                ci as int,
                left_init,
                right_init,
                y_list@,
                peer_margin,
                fuel_init,
            ),
            done ==> left.current is Some && right.current is Some && fuel > 0 && yl@.len() == 1
                && contour_bottom_spec(t@, left) > yl@.last().low_y,
        decreases (if done {
            0int
        } else {
            fuel as int + 1
        }),
    {
        let ghost s_it = t@;
        let ghost left_it = left;
        let ghost right_it = right;
        let ghost yl_it = yl@;
        let ghost fuel_it = fuel as int;
        let lb0 = bottom_of(t, &left);
        proof {
            assert(lb0 == contour_bottom_spec(t@, left));
        }
        if lb0 > yl.bottom() {
            if yl.len() > 1 {
                let popped = yl.pop();
                yl = match popped {
                    Some(l) => l,
                    None => LinkedYList::new(0, 0),  // unreachable: len was > 1
                };
            } else {
                // both contours still alive but the y-list is exhausted;
                // a well-formed walk never reaches this state, and the
                // functional specification stops the same way
                done = true;
            }
        }
        if !done {
            fuel = fuel - 1;
            let ghost yl1 = yl@;
            let dist = sat_addsub(left.right(t), peer_margin, right.left(t));
            proof {
                assert(dist == clip64(
                    contour_right_spec(t@, left) + peer_margin - contour_left_spec(t@, right),
                ));
            }
            if dist > 0 {
                right.modifier_sum = sat_add(right.modifier_sum, dist);
                let ghost pre = t@;
                let si = yl.index();
                move_subtree(t, v, ci, si, dist);
                proof {
                    lemma_same_shape_trans(orig, pre, t@);
                    lemma_same_y_trans(orig, pre, t@);
                    lemma_same_extremes_trans(orig, pre, t@);
                    lemma_move_subtree_keeps_extremes(pre, v as int, ci as int, si as int, dist);
                    assert(same_shape_at(orig, t@, v as int));
                    assert(t@ =~= move_subtree_spec(
                        pre,
                        v as int,
                        ci as int,
                        yl1.last().index as int,
                        dist,
                    ));
                    assert forall|j: int|
                        0 <= j < orig.len() implies #[trigger] t@[j].children
                        == orig[j].children by {
                        assert(t@[j].children == pre[j].children);
                    }
                }
            }
            let lb = left.bottom(t);
            let rb = right.bottom(t);
            proof {
                assert(lb == contour_bottom_spec(t@, left));
                assert(rb == contour_bottom_spec(t@, right));
            }
            let ghost s_mid = t@;
            let ghost left_mid = left;
            let ghost right_mid = right;
            if lb <= rb {
                proof {
                    match left.current {
                        Some(k) => {
                            assert(node_wf(t@, k as int));
                        },
                        None => {},
                    }
                }
                left.next(t);
                proof {
                    assert(left == contour_next_spec(t@, left_mid));
                }
            }
            if lb >= rb {
                proof {
                    match right.current {
                        Some(k) => {
                            assert(node_wf(t@, k as int));
                        },
                        None => {},
                    }
                }
                right.next(t);
                proof {
                    assert(right == contour_next_spec(t@, right_mid));
                }
            }
            proof {
                assert(separate_loop_spec(
                    s_it,
                    v as int,
                    ci as int,
                    left_it,
                    right_it,
                    yl_it,
                    peer_margin,
                    fuel_it,
                ) == separate_loop_spec(
                    t@,
                    v as int,
                    ci as int,
                    left,
                    right,
                    yl@,
                    peer_margin,
                    fuel_it - 1,
                ));
            }
        }
    }
    proof {
        assert(separate_loop_spec(
            t@,
            v as int,
            ci as int,
            left,
            right,
            yl@,
            peer_margin,
            fuel as int,
        ) == (t@, left, right, yl@));
        let walked = separate_loop_spec(
            orig,
            v as int,
            ci as int,
            left_init,
            right_init,
            y_list@,
            peer_margin,
            fuel_init,
        );
        assert(walked.0 == t@ && walked.1 == left && walked.2 == right && walked.3 == yl@);
    }
    if left.is_none() && !right.is_none() {
        let target = match right.current {
            Some(c) => c,
            None => 0,  // excluded by the branch condition
        };
        let ghost pre = t@;
        proof {
            assert(extremes_set(t@, c0));
            assert(extremes_set(t@, cci));
            assert(same_shape_at(orig, t@, v as int));
        }
        set_left_thread(t, v, ci, target, right.modifier_sum);
        proof {
            lemma_same_shape_trans(orig, pre, t@);
            lemma_same_y_trans(orig, pre, t@);
            assert forall|j: int|
                0 <= j < orig.len() implies #[trigger] t@[j].children == orig[j].children by {
                assert(t@[j].children == pre[j].children);
            }
            assert(node_wf(pre, v as int));
            assert(pre[c0].order == 0 && pre[cci].order == ci);
            assert(extremes_set(pre, c0) && extremes_set(pre, cci));
            assert(extremes_set(t@, c0));
            assert(extremes_set(t@, cci));
            assert forall|j: int|
                0 <= j < orig.len() && extremes_set(orig, j) implies #[trigger] extremes_set(
                t@,
                j,
            ) by {
                assert(extremes_set(pre, j));
            }
            assert(t@ =~= set_left_thread_spec(pre, v as int, ci as int, target, right.modifier_sum));
        }
    } else if !left.is_none() && right.is_none() {
        let target = match left.current {
            Some(c) => c,
            None => 0,  // excluded by the branch condition
        };
        let ghost pre = t@;
        proof {
            assert(extremes_set(t@, cprev));
            assert(extremes_set(t@, cci));
            assert(same_shape_at(orig, t@, v as int));
        }
        set_right_thread(t, v, ci, target, left.modifier_sum);
        proof {
            lemma_same_shape_trans(orig, pre, t@);
            lemma_same_y_trans(orig, pre, t@);
            assert forall|j: int|
                0 <= j < orig.len() implies #[trigger] t@[j].children == orig[j].children by {
                assert(t@[j].children == pre[j].children);
            }
            assert(node_wf(pre, v as int));
            assert(pre[c0].order == 0 && pre[cci].order == ci && pre[cprev].order == ci - 1);
            assert(extremes_set(pre, c0) && extremes_set(pre, cci) && extremes_set(pre, cprev));
            assert(extremes_set(t@, c0));
            assert(extremes_set(t@, cci));
            assert forall|j: int|
                0 <= j < orig.len() && extremes_set(orig, j) implies #[trigger] extremes_set(
                t@,
                j,
            ) by {
                assert(extremes_set(pre, j));
            }
            assert(t@ =~= set_right_thread_spec(pre, v as int, ci as int, target, left.modifier_sum));
        }
    }
    proof {
        assert(extremes_set(t@, c0));
        assert(extremes_set(t@, cci));
        assert(same_shape_at(orig, t@, v as int));
        assert(t@ =~= separate_spec(orig, v as int, ci as int, y_list@, peer_margin).0);
        assert(yl@ == separate_spec(orig, v as int, ci as int, y_list@, peer_margin).1);
    }
    yl
}

/// Moving a subtree only rewrites modifiers and deferred shifts, so
/// every extreme cache survives it.
pub proof fn lemma_move_subtree_keeps_extremes(
    s: Seq<LayoutNode>,
    v: int,
    i: int,
    si: int,
    d: i64,
)
    requires
        arena_wf(s),
        0 <= v < s.len(),
        0 <= si < i < s[v].children@.len(),
    ensures
        same_extremes(s, move_subtree_spec(s, v, i, si, d)),
{
    assert(node_wf(s, v));
}

/// A contour's bottom edge, readable while the cursor is borrowed.
fn bottom_of(t: &Vec<LayoutNode>, c: &Contour) -> (r: i64)
    requires
        opt_idx_ok(c.current, t@.len() as int),
    ensures
        r == (match c.current {
            Some(k) => clip64(t@[k as int].y + t@[k as int].height),
            None => 0,
        }),
{
    c.bottom(t)
}


/// The bottom-up pass as a pure function of the input state.  A leaf
/// becomes its own extreme; an inner node places its first child, then
/// each further child with a separation walk and a y-list update, and
/// finally centers itself and inherits its children's extremes.
pub open spec fn first_walk_spec(s: Seq<LayoutNode>, n: int, v: int, pm: i64) -> Seq<LayoutNode>
    decreases n - v, 1int, 0int,
{
    if v < 0 || v >= s.len() || v >= n {
        s
    } else if s[v].children@.len() == 0 {
        s.update(v, extremes_of(s, v))
    } else {
        let cs = s[v].children@;
        let c0 = cs[0] as int;
        if c0 <= v || c0 >= n {
            s
        } else {
            let s1 = first_walk_spec(s, n, c0, pm);
            let e0 = (match s1[c0].extreme_right {
                Some(e) => e as int,
                None => c0,
            });
            let b0 = clip64(s1[e0].y + s1[e0].height);
            let yl0 = seq![YEntry { index: 0, low_y: b0 }];
            first_walk_kids(s1, n, cs, 1, v, yl0, pm)
        }
    }
}

/// The tail of the bottom-up pass over children `k..` of `v`, carrying
/// the y-list, then the root's centering and extreme caching.
pub open spec fn first_walk_kids(
    s: Seq<LayoutNode>,
    n: int,
    cs: Seq<usize>,
    k: int,
    v: int,
    yl: Seq<YEntry>,
    pm: i64,
) -> Seq<LayoutNode>
    decreases n - v, 0int, (if cs.len() - k > 0 { cs.len() - k } else { 0 }),
{
    if k < 1 || k >= cs.len() {
        let s2 = s.update(v, position_root_spec(s, v));
        s2.update(v, extremes_of(s2, v))
    } else {
        let c = cs[k] as int;
        if c <= v || c >= n {
            first_walk_kids(s, n, cs, k + 1, v, yl, pm)
        } else {
            let s1 = first_walk_spec(s, n, c, pm);
            let el = (match s1[c].extreme_left {
                Some(e) => e as int,
                None => c,
            });
            let max_y = clip64(s1[el].y + s1[el].height);
            let sep = separate_spec(s1, v, k, yl, pm);
            let yl2 = crate::ylist::drop_covered(sep.1, max_y).push(
                YEntry { index: k as usize, low_y: max_y },
            );
            first_walk_kids(sep.0, n, cs, k + 1, v, yl2, pm)
        }
    }
}

/// Extreme caches are cached for the whole subtree under `root`.
pub open spec fn subtree_extremes(orig: Seq<LayoutNode>, now: Seq<LayoutNode>, root: int) -> bool {
    forall|j: int|
        0 <= j < orig.len() && #[trigger] in_subtree(orig, root, j) ==> extremes_set(now, j)
}

impl LayoutConfig {
    /// The bottom-up pass: place every subtree under `v` relative to its
    /// siblings.  A leaf becomes its own extreme on both sides; an inner
    /// node places its first child, then each further child in turn,
    /// separating it from the block of already-placed siblings, and
    /// finally centers itself over its children and inherits their
    /// extremes in O(1).
    #[verifier::loop_isolation(false)]
    pub fn first_walk(&self, t: &mut Vec<LayoutNode>, v: usize)
        requires
            arena_wf(old(t)@),
            old(t)@.len() < usize::MAX,
            (v as int) < old(t)@.len(),
        ensures
            arena_wf(final(t)@),
            same_shape(old(t)@, final(t)@),
            same_y(old(t)@, final(t)@),
            keeps_extremes(old(t)@, final(t)@),
            extremes_set(final(t)@, v as int),
            subtree_extremes(old(t)@, final(t)@, v as int),
            old(t)@[v as int].children@.len() > 0 ==> (final(t)@[v as int].modifier_to_subtree as int)
                == -(final(t)@[v as int].relative_x as int),
            final(t)@ =~= first_walk_spec(
                old(t)@,
                old(t)@.len() as int,
                v as int,
                self.peer_margin,
            ),
            kept_children(old(t)@, final(t)@),
        decreases old(t)@.len() - v,
    {
        let ghost orig = t@;
        let ghost nn = t@.len() as int;
        proof {
            assert(node_wf(orig, v as int));
        }
        let cs = t[v].children.len();
        if cs == 0 {
            set_extremes(t, v);
            proof {
                assert(extremes_set(t@, v as int));
                assert forall|j: int|
                    0 <= j < orig.len() && #[trigger] in_subtree(orig, v as int, j)
                        implies extremes_set(t@, j) by {
                    if j != v as int {
                        let k = lemma_subtree_step(orig, v as int, j);
                    }
                }
                assert(t@ =~= first_walk_spec(orig, nn, v as int, self.peer_margin));
            }
            return ;
        }
        let c0 = t[v].children[0];
        let ghost pre0 = t@;
        self.first_walk(t, c0);
        proof {
            lemma_same_shape_trans(orig, pre0, t@);
            lemma_same_y_trans(orig, pre0, t@);
            assert(same_shape_at(orig, t@, v as int));
            assert(node_wf(t@, c0 as int));
            assert(t@ =~= first_walk_spec(orig, nn, c0 as int, self.peer_margin));
        }
        let ghost s_c0 = t@;
        let er0 = match t[c0].extreme_right {
            Some(e) => e,
            None => c0,  // unreachable: the recursive walk cached it
        };
        let b0 = bottom(t, er0);
        let mut yl = LinkedYList::new(0, b0);
        let ghost yl0g = yl@;
        proof {
            assert(yl0g =~= seq![YEntry { index: 0, low_y: b0 }]);
        }
        let mut i: usize = 1;
        while i < cs
            invariant
                arena_wf(t@),
                same_shape(orig, t@),
                same_y(orig, t@),
                keeps_extremes(orig, t@),
                kept_children(orig, t@),
                t@.len() == orig.len() < usize::MAX,
                (v as int) < t@.len(),
                1 <= i <= cs,
                cs == orig[v as int].children@.len(),
                t@[v as int].children@ == orig[v as int].children@,
                yl@.len() >= 1,
                forall|k: int| 0 <= k < yl@.len() ==> (#[trigger] yl@[k].index as int) < i as int,
                forall|k: int|
                    0 <= k < i ==> extremes_set(t@, #[trigger] orig[v as int].children@[k] as int),
                forall|k: int|
                    0 <= k < i ==> #[trigger] subtree_extremes(
                        orig,
                        t@,
                        orig[v as int].children@[k] as int,
                    ),
                first_walk_kids(
                    t@,
                    nn,
                    orig[v as int].children@,
                    i as int,
                    v as int,
                    yl@,
                    self.peer_margin,
                ) == first_walk_kids(
                    s_c0,
                    nn,
                    orig[v as int].children@,
                    1,
                    v as int,
                    yl0g,
                    self.peer_margin,
                ),
            decreases cs - i,
        {
            proof {
                assert(node_wf(orig, v as int));
            }
            let ci_idx = t[v].children[i];
            let ghost s_it = t@;
            let ghost yl_it = yl@;
            let ghost pre1 = t@;
            self.first_walk(t, ci_idx);
            proof {
                lemma_same_shape_trans(orig, pre1, t@);
                lemma_same_y_trans(orig, pre1, t@);
                assert forall|j: int|
                    0 <= j < orig.len() implies #[trigger] t@[j].children == orig[j].children by {
                    assert(pre1[j].children == orig[j].children);
                }
                assert forall|k: int|
                    0 <= k < i + 1 implies extremes_set(
                    t@,
                    #[trigger] orig[v as int].children@[k] as int,
                ) by {
                    if k < i {
                        assert(extremes_set(pre1, orig[v as int].children@[k] as int));
                    }
                }
                assert forall|k: int|
                    0 <= k < i + 1 implies #[trigger] subtree_extremes(
                    orig,
                    t@,
                    orig[v as int].children@[k] as int,
                ) by {
                    let ck = orig[v as int].children@[k] as int;
                    if k < i {
                        assert(subtree_extremes(orig, pre1, ck));
                        assert forall|j: int|
                            0 <= j < orig.len() && #[trigger] in_subtree(orig, ck, j)
                                implies extremes_set(t@, j) by {
                            assert(extremes_set(pre1, j));
                        }
                    } else {
                        assert(subtree_extremes(pre1, t@, ck));
                        assert forall|j: int|
                            0 <= j < orig.len() && #[trigger] in_subtree(orig, ck, j)
                                implies extremes_set(t@, j) by {
                            lemma_in_subtree_same_shape(orig, pre1, ck, j);
                            assert(in_subtree(pre1, ck, j));
                        }
                    }
                }
                assert(same_shape_at(orig, t@, v as int));
                assert(node_wf(t@, ci_idx as int));
                assert(extremes_set(t@, ci_idx as int));
            }
            let el = match t[ci_idx].extreme_left {
                Some(e) => e,
                None => ci_idx,  // unreachable: the recursive walk cached it
            };
            let max_y = bottom(t, el);
            let ghost pre2 = t@;
            let ghost yl_pre = yl@;
            yl = separate(t, v, i, yl, self.peer_margin);
            proof {
                lemma_same_shape_trans(orig, pre2, t@);
                lemma_same_y_trans(orig, pre2, t@);
                assert forall|j: int|
                    0 <= j < orig.len() implies #[trigger] t@[j].children == orig[j].children by {
                    assert(pre2[j].children == orig[j].children);
                }
                assert forall|k: int|
                    0 <= k < i + 1 implies extremes_set(
                    t@,
                    #[trigger] orig[v as int].children@[k] as int,
                ) by {
                    assert(extremes_set(pre2, orig[v as int].children@[k] as int));
                }
                assert forall|k: int|
                    0 <= k < i + 1 implies #[trigger] subtree_extremes(
                    orig,
                    t@,
                    orig[v as int].children@[k] as int,
                ) by {
                    let ck = orig[v as int].children@[k] as int;
                    assert(subtree_extremes(orig, pre2, ck));
                    assert forall|j: int|
                        0 <= j < orig.len() && #[trigger] in_subtree(orig, ck, j)
                            implies extremes_set(t@, j) by {
                        assert(extremes_set(pre2, j));
                    }
                }
                assert(same_shape_at(orig, t@, v as int));
            }
            let ghost yl_mid = yl@;
            yl = yl.update(i, max_y);
            proof {
                crate::ylist::lemma_drop_covered_prefix(yl_mid, max_y);
                // one more child folds into the residual run of the pass
                let cseq = orig[v as int].children@;
                let c = cseq[i as int] as int;
                assert(c == ci_idx as int);
                assert(c > v as int && c < nn);
                assert(pre2 == first_walk_spec(s_it, nn, c, self.peer_margin));
                let sep = separate_spec(pre2, v as int, i as int, yl_pre, self.peer_margin);
                assert(t@ =~= sep.0);
                assert(yl_mid == sep.1);
                assert(yl@ =~= crate::ylist::drop_covered(sep.1, max_y).push(
                    YEntry { index: i, low_y: max_y },
                ));
                assert(max_y == ({
                    let e = (match pre2[c].extreme_left {
                        Some(e) => e as int,
                        None => c,
                    });
                    clip64(pre2[e].y + pre2[e].height)
                }));
                assert(first_walk_kids(s_it, nn, cseq, i as int, v as int, yl_it, self.peer_margin)
                    == first_walk_kids(t@, nn, cseq, i as int + 1, v as int, yl@, self.peer_margin));
            }
            i = i + 1;
        }
        let ghost pre3 = t@;
        let ghost yl_end = yl@;
        position_root(t, v);
        proof {
            lemma_same_shape_trans(orig, pre3, t@);
            lemma_same_y_trans(orig, pre3, t@);
        }
        let ghost pre4 = t@;
        set_extremes(t, v);
        proof {
            lemma_same_shape_trans(orig, pre4, t@);
            lemma_same_y_trans(orig, pre4, t@);
            assert forall|j: int|
                0 <= j < orig.len() implies #[trigger] t@[j].children == orig[j].children by {
                assert(pre3[j].children == orig[j].children);
                assert(pre4[j].children == pre3[j].children);
            }
            assert(node_wf(orig, v as int));
            let c0i = orig[v as int].children@[0] as int;
            let cli = orig[v as int].children@[cs - 1] as int;
            assert(extremes_set(pre3, c0i));
            assert(extremes_set(pre3, cli));
            assert(extremes_set(pre4, c0i));
            assert(extremes_set(pre4, cli));
            assert(extremes_set(t@, v as int));
            assert forall|j: int|
                0 <= j < orig.len() && extremes_set(orig, j) implies #[trigger] extremes_set(
                t@,
                j,
            ) by {
                assert(extremes_set(pre3, j));
                assert(extremes_set(pre4, j));
            }
            assert forall|j: int|
                0 <= j < orig.len() && #[trigger] in_subtree(orig, v as int, j)
                    implies extremes_set(t@, j) by {
                if j == v as int {
                } else {
                    let k = lemma_subtree_step(orig, v as int, j);
                    let ck = orig[v as int].children@[k] as int;
                    assert(subtree_extremes(orig, pre3, ck));
                    assert(extremes_set(pre3, j));
                    assert(extremes_set(pre4, j));
                }
            }
            // the two closing updates are the base case of the residual run
            let cseq = orig[v as int].children@;
            assert(pre4 =~= pre3.update(v as int, position_root_spec(pre3, v as int)));
            assert(t@ =~= pre4.update(v as int, extremes_of(pre4, v as int)));
            assert(first_walk_kids(pre3, nn, cseq, cs as int, v as int, yl_end, self.peer_margin)
                == t@);
            assert(first_walk_kids(s_c0, nn, cseq, 1, v as int, yl0g, self.peer_margin) == t@);
            assert(cseq[0] == c0);
            assert((c0 as int) > v as int && (c0 as int) < nn);
            assert(s_c0 == first_walk_spec(orig, nn, c0 as int, self.peer_margin));
            assert(b0 == ({
                let e = (match s_c0[c0 as int].extreme_right {
                    Some(e) => e as int,
                    None => c0 as int,
                });
                clip64(s_c0[e].y + s_c0[e].height)
            }));
            assert(t@ =~= first_walk_spec(orig, nn, v as int, self.peer_margin));
        }
    }

    /// The top-down pass: fold each node's subtree modifier into the
    /// running sum inherited from its ancestors, write the absolute x,
    /// convert the children's deferred shifts into final modifiers, and
    /// recurse.  Afterwards every absolute x in the subtree equals the
    /// node's relative position plus the modifiers accumulated along
    /// the path from the subtree root, seeded with `modsum`; nothing
    /// outside the subtree moves.
    #[verifier::loop_isolation(false)]
    pub fn second_walk(&self, t: &mut Vec<LayoutNode>, v: usize, modsum: i64)
        requires
            arena_wf(old(t)@),
            (v as int) < old(t)@.len(),
        ensures
            arena_wf(final(t)@),
            same_shape(old(t)@, final(t)@),
            same_y(old(t)@, final(t)@),
            same_extremes(old(t)@, final(t)@),
            untouched_outside(old(t)@, final(t)@, v as int),
            x_resolved(final(t)@, v as int, modsum),
            final(t)@ =~= second_walk_spec(old(t)@, old(t)@.len() as int, v as int, modsum),
            forall|j: int|
                0 <= j < old(t)@.len() ==> (#[trigger] final(t)@[j]).relative_x == old(
                    t,
                )@[j].relative_x,
            kept_children(old(t)@, final(t)@),
        decreases old(t)@.len() - v,
    {
        let ghost orig = t@;
        let ghost nn = t@.len() as int;
        proof {
            assert(node_wf(orig, v as int));
        }
        let m2 = sat_add(modsum, t[v].modifier_to_subtree);
        let xv = sat_add(t[v].relative_x, m2);
        let n = &mut t[v];
        n.x = xv;
        proof {
            assert(node_wf(orig, v as int));
            lemma_update_keeps_wf(orig, v as int, t@[v as int]);
            assert(t@ =~= orig.update(
                v as int,
                (LayoutNode {
                    x: clip64(orig[v as int].relative_x + clip64(
                        modsum + orig[v as int].modifier_to_subtree,
                    )),
                    ..orig[v as int]
                }),
            ));
            assert forall|j: int|
                0 <= j < orig.len() && !in_subtree(orig, v as int, j) implies same_x_fields_at(
                orig,
                t@,
                j,
            ) by {
                assert(in_subtree(orig, v as int, v as int));
                assert(j != v as int);
                assert(t@[j] == orig[j]);
            }
        }
        let ghost pre0 = t@;
        add_child_spacing(t, v);
        proof {
            lemma_same_shape_trans(orig, pre0, t@);
            lemma_same_y_trans(orig, pre0, t@);
            lemma_same_extremes_trans(orig, pre0, t@);
            assert(same_shape_at(orig, t@, v as int));
            lemma_spacing_touches_children(pre0, pre0[v as int].children@, 0, 0, 0, v as int);
            assert(t@ =~= apply_spacing(pre0, pre0[v as int].children@, 0, 0, 0));
            assert forall|j: int|
                0 <= j < orig.len() && !in_subtree(orig, v as int, j) implies same_x_fields_at(
                orig,
                t@,
                j,
            ) by {
                lemma_in_subtree_same_shape(orig, pre0, v as int, j);
                assert(!in_subtree(pre0, v as int, j));
                assert(same_x_fields_at(pre0, t@, j));
                assert(same_x_fields_at(orig, pre0, j));
            }
            lemma_spacing_keeps_root(pre0, pre0[v as int].children@, 0, 0, 0, v as int);
            assert(t@[v as int] == pre0[v as int]);
            lemma_spacing_keeps_positions(pre0, pre0[v as int].children@, 0, 0, 0);
            assert forall|j: int|
                0 <= j < orig.len() implies (#[trigger] t@[j]).relative_x
                == orig[j].relative_x by {
                assert(t@[j].relative_x == pre0[j].relative_x);
            }
            assert forall|j: int|
                0 <= j < orig.len() implies #[trigger] t@[j].children == orig[j].children by {
                assert(t@[j].children == pre0[j].children);
                assert(pre0[j].children == orig[j].children);
            }
            assert(pre0[v as int].children@ == orig[v as int].children@);
        }
        let ghost s2g = t@;
        let cs = t[v].children.len();
        let mut k: usize = 0;
        while k < cs
            invariant
                arena_wf(t@),
                same_shape(orig, t@),
                same_y(orig, t@),
                same_extremes(orig, t@),
                untouched_outside(orig, t@, v as int),
                t@.len() == orig.len(),
                (v as int) < t@.len(),
                k <= cs,
                cs == orig[v as int].children@.len(),
                t@[v as int].children@ == orig[v as int].children@,
                t@[v as int].modifier_to_subtree == orig[v as int].modifier_to_subtree,
                t@[v as int].relative_x == orig[v as int].relative_x,
                t@[v as int].x == xv,
                kept_children(orig, t@),
                second_walk_kids(t@, nn, orig[v as int].children@, k as int, v as int, m2)
                    == second_walk_kids(s2g, nn, orig[v as int].children@, 0, v as int, m2),
                forall|j: int|
                    0 <= j < orig.len() ==> (#[trigger] t@[j]).relative_x == orig[j].relative_x,
                forall|k2: int|
                    0 <= k2 < k ==> x_resolved(
                        t@,
                        #[trigger] orig[v as int].children@[k2] as int,
                        m2,
                    ),
            decreases cs - k,
        {
            proof {
                assert(node_wf(orig, v as int));
            }
            let c = t[v].children[k];
            let ghost pre = t@;
            self.second_walk(t, c, m2);
            proof {
                lemma_same_shape_trans(orig, pre, t@);
                lemma_same_y_trans(orig, pre, t@);
                lemma_same_extremes_trans(orig, pre, t@);
                assert(same_shape_at(orig, t@, v as int));
                assert(orig[c as int].parent == Some(v));
                assert(in_subtree(orig, v as int, v as int));
                assert(in_subtree(orig, v as int, c as int));
                // one more child subtree folds into the residual run
                assert(t@ =~= second_walk_spec(pre, nn, c as int, m2));
                assert((c as int) > v as int && (c as int) < nn);
                assert(second_walk_kids(pre, nn, orig[v as int].children@, k as int, v as int, m2)
                    == second_walk_kids(
                    second_walk_spec(pre, nn, c as int, m2),
                    nn,
                    orig[v as int].children@,
                    k as int + 1,
                    v as int,
                    m2,
                ));
                assert forall|j: int|
                    0 <= j < orig.len() implies (#[trigger] t@[j]).relative_x
                    == orig[j].relative_x by {
                    assert(t@[j].relative_x == pre[j].relative_x);
                }
                assert forall|j: int|
                    0 <= j < orig.len() implies #[trigger] t@[j].children == orig[j].children by {
                    assert(t@[j].children == pre[j].children);
                }
                // the recursion stays inside this child's subtree
                assert forall|j: int|
                    0 <= j < orig.len() && !in_subtree(orig, v as int, j)
                        implies same_x_fields_at(orig, t@, j) by {
                    lemma_in_subtree_same_shape(orig, pre, c as int, j);
                    if in_subtree(pre, c as int, j) {
                        assert(in_subtree(orig, c as int, j));
                        lemma_in_subtree_trans(orig, v as int, c as int, j);
                    }
                    assert(same_x_fields_at(pre, t@, j));
                    assert(same_x_fields_at(orig, pre, j));
                }
                assert(!in_subtree(orig, c as int, v as int)) by {
                    if in_subtree(orig, c as int, v as int) {
                        assert(v as int >= c as int);
                    }
                }
                lemma_in_subtree_same_shape(orig, pre, c as int, v as int);
                assert(same_x_fields_at(pre, t@, v as int));
                // earlier children's subtrees are disjoint from this one,
                // so their resolved coordinates survive
                assert forall|k2: int|
                    0 <= k2 < k + 1 implies x_resolved(
                    t@,
                    #[trigger] orig[v as int].children@[k2] as int,
                    m2,
                ) by {
                    let ck = orig[v as int].children@[k2] as int;
                    assert(in_subtree(orig, v as int, ck));
                    if k2 < k {
                        assert(x_resolved(pre, ck, m2));
                        assert(ck != c as int) by {
                            assert(orig[ck].order as int == k2);
                            assert(orig[c as int].order as int == k as int);
                        }
                        assert forall|j2: int|
                            in_subtree(pre, ck, j2) && 0 <= j2 < pre.len() implies !in_subtree(
                            pre,
                            c as int,
                            j2,
                        ) by {
                            lemma_in_subtree_same_shape(orig, pre, ck, j2);
                            lemma_in_subtree_same_shape(orig, pre, c as int, j2);
                            if in_subtree(orig, ck, j2) && in_subtree(orig, c as int, j2) {
                                if ck <= c as int {
                                    lemma_chain_comparable(orig, ck, c as int, j2);
                                    assert(in_subtree(orig, ck, c as int));
                                    lemma_sibling_not_in_subtree(orig, v as int, ck, c as int);
                                } else {
                                    lemma_chain_comparable(orig, c as int, ck, j2);
                                    lemma_sibling_not_in_subtree(orig, v as int, c as int, ck);
                                }
                            }
                        }
                        assert(!in_subtree(pre, c as int, ck)) by {
                            lemma_in_subtree_same_shape(orig, pre, ck, ck);
                            assert(in_subtree(pre, ck, ck));
                        }
                        lemma_x_resolved_stable(pre, t@, ck, c as int, m2);
                    } else {
                        assert(ck == c as int);
                        assert(x_resolved(t@, c as int, m2));
                    }
                }
            }
            k = k + 1;
        }
        proof {
            assert(second_walk_kids(t@, nn, orig[v as int].children@, cs as int, v as int, m2)
                == t@);
            assert(t@ == second_walk_kids(s2g, nn, orig[v as int].children@, 0, v as int, m2));
            assert(m2 == clip64(modsum + orig[v as int].modifier_to_subtree));
            assert(pre0 == orig.update(
                v as int,
                (LayoutNode {
                    x: clip64(orig[v as int].relative_x + m2),
                    ..orig[v as int]
                }),
            ));
            assert(s2g == apply_spacing(pre0, pre0[v as int].children@, 0, 0, 0));
            assert(t@ =~= second_walk_spec(orig, nn, v as int, modsum));
            assert forall|j: int|
                0 <= j < t@.len() && #[trigger] in_subtree(t@, v as int, j) implies t@[j].x
                == clip64(t@[j].relative_x + accum_from(t@, j, v as int, modsum)) by {
                lemma_in_subtree_same_shape(orig, t@, v as int, j);
                assert(in_subtree(orig, v as int, j));
                if j == v as int {
                    assert(t@[j].x == xv);
                } else {
                    let k2 = lemma_subtree_step(orig, v as int, j);
                    let ck = orig[v as int].children@[k2] as int;
                    assert(x_resolved(t@, ck, m2));
                    lemma_in_subtree_same_shape(orig, t@, ck, j);
                    assert(in_subtree(t@, ck, j));
                    assert(t@[j].x == clip64(t@[j].relative_x + accum_from(t@, j, ck, m2)));
                    assert(same_shape_at(orig, t@, ck));
                    assert(t@[ck].parent == Some(v));
                    lemma_accum_shift(t@, j, v as int, ck, modsum, m2);
                }
            }
        }
    }
}

/// The arena the top-down pass produces when it enters `v`'s subtree
/// with running modifier `modsum`: a pure function of the input state.
/// The node's own modifier folds into the running sum, its absolute x
/// becomes its relative position plus that sum, the children's deferred
/// shifts fold into their modifiers by prefix sum, and each child's
/// subtree follows in turn.  `n` is the arena length, carried for the
/// recursion bound.
pub open spec fn second_walk_spec(s: Seq<LayoutNode>, n: int, v: int, modsum: i64) -> Seq<
    LayoutNode,
>
    decreases n - v, 1int, 0int,
{
    if v < 0 || v >= s.len() || v >= n {
        s
    } else {
        let m2 = clip64(modsum + s[v].modifier_to_subtree);
        let s1 = s.update(v, (LayoutNode { x: clip64(s[v].relative_x + m2), ..s[v] }));
        let s2 = apply_spacing(s1, s1[v].children@, 0, 0, 0);
        second_walk_kids(s2, n, s[v].children@, 0, v, m2)
    }
}

/// The tail of the pass: the subtrees of children `k..` of `v`, in
/// order.
pub open spec fn second_walk_kids(
    s: Seq<LayoutNode>,
    n: int,
    cs: Seq<usize>,
    k: int,
    v: int,
    m2: i64,
) -> Seq<LayoutNode>
    decreases n - v, 0int, (if cs.len() - k > 0 { cs.len() - k } else { 0 }),
{
    if k < 0 || k >= cs.len() {
        s
    } else {
        let c = cs[k] as int;
        if c <= v || c >= n {
            second_walk_kids(s, n, cs, k + 1, v, m2)
        } else {
            second_walk_kids(second_walk_spec(s, n, c, m2), n, cs, k + 1, v, m2)
        }
    }
}

/// The fields the second walk writes: absolute x, relative position,
/// subtree modifier and deferred shifts agree at `j`.
pub open spec fn same_x_fields_at(a: Seq<LayoutNode>, b: Seq<LayoutNode>, j: int) -> bool {
    &&& b[j].x == a[j].x
    &&& b[j].relative_x == a[j].relative_x
    &&& b[j].modifier_to_subtree == a[j].modifier_to_subtree
    &&& b[j].shift_acceleration == a[j].shift_acceleration
    &&& b[j].shift_change == a[j].shift_change
}

/// The walk leaves everything outside `v`'s subtree in place.
pub open spec fn untouched_outside(a: Seq<LayoutNode>, b: Seq<LayoutNode>, v: int) -> bool {
    forall|j: int|
        0 <= j < a.len() && !in_subtree(a, v, j) ==> #[trigger] same_x_fields_at(a, b, j)
}

/// The modifier sum accumulated on the path from `anc` down to `j`,
/// seeded with `base` at `anc`: the running sum the second walk passes
/// downward, saturating step by step exactly as the walk does.
pub open spec fn accum_from(s: Seq<LayoutNode>, j: int, anc: int, base: i64) -> i64
    decreases (if j > 0 { j } else { 0 }),
{
    if j == anc {
        clip64(base + s[j].modifier_to_subtree)
    } else if j <= anc || j <= 0 || j >= s.len() {
        0
    } else {
        match s[j].parent {
            Some(p) => if (p as int) < j {
                clip64(accum_from(s, p as int, anc, base) + s[j].modifier_to_subtree)
            } else {
                0
            },
            None => 0,
        }
    }
}

/// Every absolute x in `anc`'s subtree is its relative position plus
/// the modifiers accumulated along the root path: the invariant that
/// gives `modifier_to_subtree` its meaning.
pub open spec fn x_resolved(s: Seq<LayoutNode>, anc: int, base: i64) -> bool {
    forall|j: int|
        0 <= j < s.len() && #[trigger] in_subtree(s, anc, j) ==> s[j].x == clip64(
            s[j].relative_x + accum_from(s, j, anc, base),
        )
}

/// A sibling subtree never contains another child of the same parent.
pub proof fn lemma_sibling_not_in_subtree(s: Seq<LayoutNode>, v: int, a: int, b: int)
    requires
        arena_wf(s),
        0 <= v < s.len(),
        0 <= a < s.len(),
        0 <= b < s.len(),
        a != b,
        s[a].parent == Some(v as usize),
        s[b].parent == Some(v as usize),
    ensures
        !in_subtree(s, a, b),
{
    assert(node_wf(s, b));
    assert(node_wf(s, v));
    assert(node_wf(s, a));
    if in_subtree(s, a, b) {
        assert(b != a);
        if b > a {
            assert(in_subtree(s, a, v));
            assert(v < a);
        }
    }
}

/// The spacing pass only rewrites the children of `v`, which lie in
/// `v`'s subtree, and never touches x or relative positions.
pub proof fn lemma_spacing_touches_children(
    s: Seq<LayoutNode>,
    cs: Seq<usize>,
    k: int,
    d: i64,
    delta: i64,
    v: int,
)
    requires
        arena_wf(s),
        0 <= v < s.len(),
        cs == s[v].children@,
    ensures
        forall|j: int|
            0 <= j < s.len() && !in_subtree(s, v, j) ==> #[trigger] same_x_fields_at(
                s,
                apply_spacing(s, cs, k, d, delta),
                j,
            ),
    decreases cs.len() - k,
{
    if k < 0 || k >= cs.len() || cs[k] as int >= s.len() {
    } else {
        let c = cs[k] as int;
        assert(node_wf(s, v));
        let d2 = clip64(d + s[c].shift_acceleration);
        let delta2 = clip64(delta + d2 + s[c].shift_change);
        let s1 = s.update(
            c,
            (LayoutNode {
                modifier_to_subtree: clip64(s[c].modifier_to_subtree + delta2),
                shift_acceleration: 0,
                shift_change: 0,
                ..s[c]
            }),
        );
        assert(s1[v].children@ == cs);
        assert forall|i: int| 0 <= i < s.len() implies same_shape_at(s, s1, i) by {
            if i != c {
                assert(s1[i] == s[i]);
            }
        }
        lemma_same_shape_preserves_wf_x(s, s1);
        lemma_spacing_touches_children(s1, cs, k + 1, d2, delta2, v);
        assert forall|j: int|
            0 <= j < s.len() && !in_subtree(s, v, j) implies same_x_fields_at(
            s,
            apply_spacing(s, cs, k, d, delta),
            j,
        ) by {
            lemma_in_subtree_same_shape(s, s1, v, j);
            assert(!in_subtree(s1, v, j));
            assert(in_subtree(s, v, v));
            assert(s[c].parent == Some(v as usize));
            assert(in_subtree(s, v, c));
            assert(j != c);
            assert(same_x_fields_at(s1, apply_spacing(s1, cs, k + 1, d2, delta2), j));
            assert(s1[j] == s[j]);
        }
    }
}

/// The spacing pass touches only modifiers and deferred shifts: the
/// absolute and relative positions of every node survive it.
pub proof fn lemma_spacing_keeps_positions(
    s: Seq<LayoutNode>,
    cs: Seq<usize>,
    k: int,
    d: i64,
    delta: i64,
)
    ensures
        apply_spacing(s, cs, k, d, delta).len() == s.len(),
        forall|j: int|
            0 <= j < s.len() ==> (#[trigger] apply_spacing(s, cs, k, d, delta)[j]).x == s[j].x,
        forall|j: int|
            0 <= j < s.len() ==> (#[trigger] apply_spacing(s, cs, k, d, delta)[j]).relative_x
                == s[j].relative_x,
        forall|j: int|
            0 <= j < s.len() ==> (#[trigger] apply_spacing(s, cs, k, d, delta)[j]).children
                == s[j].children,
    decreases cs.len() - k,
{
    if k < 0 || k >= cs.len() || cs[k] as int >= s.len() {
    } else {
        let c = cs[k] as int;
        let d2 = clip64(d + s[c].shift_acceleration);
        let delta2 = clip64(delta + d2 + s[c].shift_change);
        let s1 = s.update(
            c,
            (LayoutNode {
                modifier_to_subtree: clip64(s[c].modifier_to_subtree + delta2),
                shift_acceleration: 0,
                shift_change: 0,
                ..s[c]
            }),
        );
        lemma_spacing_keeps_positions(s1, cs, k + 1, d2, delta2);
        assert(apply_spacing(s, cs, k, d, delta) == apply_spacing(s1, cs, k + 1, d2, delta2));
        assert forall|j: int|
            0 <= j < s.len() implies (#[trigger] apply_spacing(s, cs, k, d, delta)[j]).x
            == s[j].x by {
            assert(apply_spacing(s1, cs, k + 1, d2, delta2)[j].x == s1[j].x);
            assert(s1[j].x == s[j].x);
        }
        assert forall|j: int|
            0 <= j < s.len() implies (#[trigger] apply_spacing(s, cs, k, d, delta)[j]).relative_x
            == s[j].relative_x by {
            assert(apply_spacing(s1, cs, k + 1, d2, delta2)[j].relative_x == s1[j].relative_x);
            assert(s1[j].relative_x == s[j].relative_x);
        }
        assert forall|j: int|
            0 <= j < s.len() implies (#[trigger] apply_spacing(s, cs, k, d, delta)[j]).children
            == s[j].children by {
            assert(apply_spacing(s1, cs, k + 1, d2, delta2)[j].children == s1[j].children);
            assert(s1[j].children == s[j].children);
        }
    }
}

/// The spacing pass never rewrites the parent node itself.
pub proof fn lemma_spacing_keeps_root(
    s: Seq<LayoutNode>,
    cs: Seq<usize>,
    k: int,
    d: i64,
    delta: i64,
    v: int,
)
    requires
        arena_wf(s),
        0 <= v < s.len(),
        cs == s[v].children@,
    ensures
        apply_spacing(s, cs, k, d, delta).len() == s.len(),
        apply_spacing(s, cs, k, d, delta)[v] == s[v],
    decreases cs.len() - k,
{
    if k < 0 || k >= cs.len() || cs[k] as int >= s.len() {
    } else {
        let c = cs[k] as int;
        assert(node_wf(s, v));
        assert(c != v);
        let d2 = clip64(d + s[c].shift_acceleration);
        let delta2 = clip64(delta + d2 + s[c].shift_change);
        let s1 = s.update(
            c,
            (LayoutNode {
                modifier_to_subtree: clip64(s[c].modifier_to_subtree + delta2),
                shift_acceleration: 0,
                shift_change: 0,
                ..s[c]
            }),
        );
        assert(s1[v].children@ == cs);
        assert forall|i: int| 0 <= i < s.len() implies same_shape_at(s, s1, i) by {
            if i != c {
                assert(s1[i] == s[i]);
            }
        }
        lemma_same_shape_preserves_wf_x(s, s1);
        lemma_spacing_keeps_root(s1, cs, k + 1, d2, delta2, v);
    }
}

/// A shape-preserving rewrite with untouched caches keeps the arena
/// well-formed.
pub proof fn lemma_same_shape_preserves_wf_x(a: Seq<LayoutNode>, b: Seq<LayoutNode>)
    requires
        arena_wf(a),
        a.len() == b.len(),
        forall|i: int| 0 <= i < a.len() ==> same_shape_at(a, b, i),
        forall|i: int|
            0 <= i < a.len() ==> #[trigger] b[i].extreme_left == a[i].extreme_left
                && b[i].extreme_right == a[i].extreme_right && b[i].thread_left == a[i].thread_left
                && b[i].thread_right == a[i].thread_right,
    ensures
        arena_wf(b),
{
    assert forall|i: int|
        0 <= i < b.len() implies {
        &&& opt_idx_ok(#[trigger] b[i].extreme_left, b.len() as int)
        &&& opt_idx_ok(b[i].extreme_right, b.len() as int)
        &&& opt_idx_ok(b[i].thread_left, b.len() as int)
        &&& opt_idx_ok(b[i].thread_right, b.len() as int)
    } by {
        assert(node_wf(a, i));
    }
    lemma_same_shape_preserves_wf(a, b);
}

/// A pass confined to a disjoint subtree preserves resolved
/// coordinates: the path from any resolved node to its subtree root
/// never enters the other subtree.
pub proof fn lemma_x_resolved_stable(
    a: Seq<LayoutNode>,
    b: Seq<LayoutNode>,
    root: int,
    other: int,
    base: i64,
)
    requires
        arena_wf(a),
        same_shape(a, b),
        x_resolved(a, root, base),
        untouched_outside(a, b, other),
        0 <= root < a.len(),
        0 <= other < a.len(),
        forall|j: int| in_subtree(a, root, j) && 0 <= j < a.len() ==> !in_subtree(a, other, j),
    ensures
        x_resolved(b, root, base),
{
    assert forall|j: int|
        0 <= j < b.len() && #[trigger] in_subtree(b, root, j) implies b[j].x == clip64(
        b[j].relative_x + accum_from(b, j, root, base),
    ) by {
        lemma_in_subtree_same_shape(a, b, root, j);
        assert(in_subtree(a, root, j));
        assert(!in_subtree(a, other, j));
        assert(same_x_fields_at(a, b, j));
        lemma_accum_same(a, b, j, root, other, base);
    }
}

/// The accumulated modifier along a path untouched by a disjoint pass
/// is unchanged.
pub proof fn lemma_accum_same(
    a: Seq<LayoutNode>,
    b: Seq<LayoutNode>,
    j: int,
    root: int,
    other: int,
    base: i64,
)
    requires
        arena_wf(a),
        same_shape(a, b),
        untouched_outside(a, b, other),
        0 <= root < a.len(),
        0 <= j < a.len(),
        in_subtree(a, root, j),
        forall|j2: int| in_subtree(a, root, j2) && 0 <= j2 < a.len() ==> !in_subtree(a, other, j2),
    ensures
        accum_from(b, j, root, base) == accum_from(a, j, root, base),
    decreases (if j > 0 { j } else { 0 }),
{
    assert(!in_subtree(a, other, j));
    assert(same_x_fields_at(a, b, j));
    if j == root {
    } else {
        assert(node_wf(a, j));
        let p = a[j].parent->Some_0 as int;
        assert(same_shape_at(a, b, j));
        lemma_parent_in_subtree(a, root, j);
        lemma_accum_same(a, b, p, root, other, base);
    }
}

/// Re-seed the accumulated modifier one level up: summing from child
/// `c` with the seed the walk computed at its parent `v` equals summing
/// from `v` with the parent's own seed.
pub proof fn lemma_accum_shift(s: Seq<LayoutNode>, j: int, v: int, c: int, base: i64, m2: i64)
    requires
        arena_wf(s),
        0 <= v < s.len(),
        0 <= c < s.len(),
        0 <= j < s.len(),
        s[c].parent is Some,
        s[c].parent->Some_0 as int == v,
        in_subtree(s, c, j),
        m2 == clip64(base + s[v].modifier_to_subtree),
    ensures
        accum_from(s, j, v, base) == accum_from(s, j, c, m2),
    decreases (if j > 0 { j } else { 0 }),
{
    assert(node_wf(s, c));
    if j == c {
        assert(accum_from(s, v, v, base) == clip64(base + s[v].modifier_to_subtree));
    } else {
        assert(node_wf(s, j));
        let p = s[j].parent->Some_0 as int;
        lemma_parent_in_subtree(s, c, j);
        lemma_accum_shift(s, p, v, c, base, m2);
    }
}

/// Running maximum of the layered-baseline candidates for depth `d`
/// among the first `upto` nodes: each node of depth `d` proposes the
/// previous baseline plus its parent's height plus the margin.
pub open spec fn dty_cand_max(s: Seq<LayoutNode>, m: i64, prev: i64, d: int, upto: int) -> i64
    decreases upto,
{
    if upto <= 0 {
        0
    } else {
        let rest = dty_cand_max(s, m, prev, d, upto - 1);
        if s[upto - 1].depth as int == d && s[upto - 1].parent is Some {
            let p = s[upto - 1].parent->Some_0 as int;
            let cand = clip64(prev + s[p].height + m);
            if cand > rest {
                cand
            } else {
                rest
            }
        } else {
            rest
        }
    }
}

/// The layered row baseline of depth `d`: depth 0 sits at 0, and each
/// deeper row sits below the previous one by the tallest parent box of
/// that row plus the margin.
pub open spec fn dty_spec(s: Seq<LayoutNode>, m: i64, d: int) -> i64
    decreases d,
{
    if d <= 0 {
        0
    } else {
        dty_cand_max(s, m, dty_spec(s, m, d - 1), d, s.len() as int)
    }
}

/// The layered baseline candidates read only shape fields, so the
/// running maximum is stable across passes that keep the shape.
pub proof fn lemma_dty_cand_stable(
    a: Seq<LayoutNode>,
    b: Seq<LayoutNode>,
    m: i64,
    prev: i64,
    d: int,
    upto: int,
)
    requires
        arena_wf(a),
        same_shape(a, b),
        upto <= a.len(),
    ensures
        dty_cand_max(a, m, prev, d, upto) == dty_cand_max(b, m, prev, d, upto),
    decreases upto,
{
    if upto > 0 {
        lemma_dty_cand_stable(a, b, m, prev, d, upto - 1);
        assert(same_shape_at(a, b, upto - 1));
        assert(node_wf(a, upto - 1));
        match a[upto - 1].parent {
            Some(p) => {
                assert(same_shape_at(a, b, p as int));
            },
            None => {},
        }
    }
}

/// The whole layered baseline table is a function of the tree shape.
pub proof fn lemma_dty_stable(a: Seq<LayoutNode>, b: Seq<LayoutNode>, m: i64, d: int)
    requires
        arena_wf(a),
        same_shape(a, b),
    ensures
        dty_spec(a, m, d) == dty_spec(b, m, d),
    decreases d,
{
    if d > 0 {
        lemma_dty_stable(a, b, m, d - 1);
        lemma_dty_cand_stable(a, b, m, dty_spec(a, m, d - 1), d, a.len() as int);
    }
}

/// The per-level row policy only reads shape fields besides y, so it
/// carries over to any pass that leaves both untouched.
pub proof fn lemma_per_level_y_stable(a: Seq<LayoutNode>, b: Seq<LayoutNode>, m: i64)
    requires
        arena_wf(a),
        per_level_y_ok(a, m),
        same_shape(a, b),
        same_y(a, b),
    ensures
        per_level_y_ok(b, m),
{
    assert forall|i: int|
        0 <= i < b.len() implies (#[trigger] b[i].y) as int == (match b[i].parent {
        Some(p) => y_parent_step(b[p as int].y, b[p as int].height, m),
        None => 0,
    }) by {
        assert(node_wf(a, i));
        assert(same_shape_at(a, b, i));
        match a[i].parent {
            Some(p) => {
                assert(same_shape_at(a, b, p as int));
            },
            None => {},
        }
    }
}

/// A node's depth never exceeds its arena index.
pub proof fn lemma_depth_le_index(s: Seq<LayoutNode>, i: int)
    requires
        arena_wf(s),
        0 <= i < s.len(),
    ensures
        s[i].depth as int <= i,
    decreases i,
{
    assert(node_wf(s, i));
    match s[i].parent {
        Some(p) => {
            lemma_depth_le_index(s, p as int);
        },
        None => {},
    }
}

impl LayoutConfig {
    /// Assign layered vertical coordinates: one pass computes, per
    /// depth, the shared row baseline (the deepest bottom edge any
    /// parent of that row pushes it to), a second pass assigns every
    /// node the baseline of its depth.  The table is rebuilt in full on
    /// every call and kept in `depth_to_y`.
    #[verifier::loop_isolation(false)]
    pub fn set_y_layered(&mut self, t: &mut Vec<LayoutNode>)
        requires
            arena_wf(old(t)@),
            old(t)@.len() > 0,
            old(t)@.len() < usize::MAX,
        ensures
            same_except_y(old(t)@, final(t)@),
            arena_wf(final(t)@),
            final(self).margin == old(self).margin,
            final(self).peer_margin == old(self).peer_margin,
            final(self).is_layered == old(self).is_layered,
            forall|d: int|
                0 <= d < final(self).depth_to_y@.len() ==> final(self).depth_to_y@[d]
                    == dty_spec(old(t)@, old(self).margin, d),
            forall|i: int|
                0 <= i < final(t)@.len() ==> (final(t)@[i].depth as int)
                    < final(self).depth_to_y@.len(),
            forall|i: int|
                0 <= i < final(t)@.len() ==> #[trigger] final(t)@[i].y
                    == final(self).depth_to_y@[final(t)@[i].depth as int],
            final(t)@ =~= layered_y_spec(old(t)@, old(self).margin),
            kept_children(old(t)@, final(t)@),
    {
        let ghost orig = t@;
        let m = self.margin;
        let n = t.len();
        let mut maxd: usize = 0;
        for i in 0..n
            invariant
                maxd < n,
                forall|j: int| 0 <= j < i ==> (#[trigger] t@[j].depth as int) <= maxd as int,
        {
            proof {
                lemma_depth_le_index(t@, i as int);
            }
            if t[i].depth > maxd {
                maxd = t[i].depth;
            }
        }
        proof {
            assert(forall|j: int| 0 <= j < n ==> (#[trigger] orig[j].depth as int) <= maxd as int);
        }
        let mut dty: Vec<i64> = Vec::new();
        dty.push(0);
        let mut d: usize = 1;
        while d <= maxd
            invariant
                1 <= d <= maxd + 1,
                dty@.len() == d as int,
                forall|k: int| 0 <= k < d ==> #[trigger] dty@[k] == dty_spec(orig, m, k),
            decreases maxd + 1 - d,
        {
            let prev = dty[d - 1];
            let mut cur: i64 = 0;
            for i in 0..n
                invariant
                    cur == dty_cand_max(orig, m, prev, d as int, i as int),
            {
                if t[i].depth == d {
                    let par = t[i].parent;
                    match par {
                        Some(p) => {
                            proof {
                                assert(node_wf(orig, i as int));
                            }
                            let cand = sat_add3(prev, t[p].height, m);
                            if cand > cur {
                                cur = cand;
                            }
                        },
                        None => {},
                    }
                }
            }
            dty.push(cur);
            d = d + 1;
        }
        let mut i: usize = 0;
        while i < n
            invariant
                i <= n,
                t@.len() == n,
                same_except_y(orig, t@),
                forall|j: int|
                    0 <= j < orig.len() ==> #[trigger] t@[j] == (LayoutNode {
                        y: t@[j].y,
                        ..orig[j]
                    }),
                forall|j: int|
                    0 <= j < i ==> #[trigger] t@[j].y == dty@[t@[j].depth as int],
            decreases n - i,
        {
            proof {
                assert(same_state_at(orig, t@, i as int));
                assert(same_shape_at(orig, t@, i as int));
            }
            let dep = t[i].depth;
            let y_val = dty[dep];
            let ghost pre = t@;
            let node = &mut t[i];
            node.y = y_val;
            proof {
                assert forall|j: int| 0 <= j < orig.len() implies #[trigger] same_shape_at(
                    orig,
                    t@,
                    j,
                ) by {
                    assert(same_shape_at(orig, pre, j));
                    if j != i as int {
                        assert(t@[j] == pre[j]);
                    }
                }
                assert forall|j: int| 0 <= j < orig.len() implies #[trigger] same_state_at(
                    orig,
                    t@,
                    j,
                ) by {
                    assert(same_state_at(orig, pre, j));
                    if j != i as int {
                        assert(t@[j] == pre[j]);
                    }
                }
            }
            i = i + 1;
        }
        self.depth_to_y = dty;
        proof {
            lemma_same_except_y_wf(orig, t@);
            assert forall|j: int|
                0 <= j < t@.len() implies (t@[j].depth as int) < self.depth_to_y@.len() by {
                assert(same_shape_at(orig, t@, j));
            }
            assert forall|i2: int| 0 <= i2 < orig.len() implies t@[i2] == layered_y_spec(
                orig,
                m,
            )[i2] by {
                assert(same_state_at(orig, t@, i2));
                assert(same_shape_at(orig, t@, i2));
                assert(t@[i2].y == dty@[t@[i2].depth as int]);
                assert(orig[i2].depth as int <= maxd as int);
                assert(dty@[t@[i2].depth as int] == dty_spec(orig, m, orig[i2].depth as int));
                assert(t@[i2] == (LayoutNode { y: t@[i2].y, ..orig[i2] }));
            }
            assert(t@ =~= layered_y_spec(orig, m));
            assert forall|i2: int|
                0 <= i2 < orig.len() implies #[trigger] t@[i2].children == orig[i2].children by {
                assert(t@[i2] == (LayoutNode { y: t@[i2].y, ..orig[i2] }));
            }
        }
    }

    /// One full layout run: reset every node's bookkeeping, assign
    /// vertical coordinates under the configured policy, then the
    /// bottom-up and top-down horizontal passes.  After the call every
    /// node's absolute coordinates are set and every contour cache is
    /// populated.
    #[verifier::loop_isolation(false)]
    pub fn layout(&mut self, t: &mut Vec<LayoutNode>)
        requires
            arena_wf(old(t)@),
            old(t)@.len() > 0,
            old(t)@.len() < usize::MAX,
        ensures
            arena_wf(final(t)@),
            same_shape(old(t)@, final(t)@),
            final(self).margin == old(self).margin,
            final(self).peer_margin == old(self).peer_margin,
            final(self).is_layered == old(self).is_layered,
            !old(self).is_layered ==> per_level_y_ok(final(t)@, old(self).margin),
            old(self).is_layered ==> forall|i: int|
                0 <= i < final(t)@.len() ==> (#[trigger] final(t)@[i].depth as int)
                    < final(self).depth_to_y@.len(),
            old(self).is_layered ==> forall|i: int|
                0 <= i < final(t)@.len() ==> (#[trigger] final(t)@[i].y)
                    == final(self).depth_to_y@[final(t)@[i].depth as int],
            old(self).is_layered ==> forall|d: int|
                0 <= d < final(self).depth_to_y@.len() ==> #[trigger] final(self).depth_to_y@[d]
                    == dty_spec(final(t)@, old(self).margin, d),
            forall|j: int| 0 <= j < final(t)@.len() ==> extremes_set(final(t)@, j),
            x_resolved(final(t)@, 0, 0),
            final(t)@ =~= layout_spec(
                old(t)@,
                old(self).margin,
                old(self).peer_margin,
                old(self).is_layered,
            ),
            kept_children(old(t)@, final(t)@),
    {
        let ghost orig = t@;
        let n = t.len();
        let mut i: usize = 0;
        while i < n
            invariant
                i <= n,
                t@.len() == n,
                arena_wf(t@),
                same_shape(orig, t@),
                forall|j: int| 0 <= j < i ==> #[trigger] t@[j] == reset_node(orig[j]),
                forall|j: int| i <= j < orig.len() ==> #[trigger] t@[j] == orig[j],
            decreases n - i,
        {
            let ghost pre = t@;
            init_node(t, i);
            proof {
                assert(node_wf(pre, i as int));
                lemma_update_keeps_wf(pre, i as int, t@[i as int]);
                lemma_same_shape_trans(orig, pre, t@);
            }
            i = i + 1;
        }
        let ghost s_init = t@;
        proof {
            assert(s_init =~= init_spec(orig));
        }
        if self.is_layered {
            self.set_y_layered(t);
        } else {
            self.set_y(t);
        }
        let ghost s_y = t@;
        proof {
            lemma_same_shape_trans(orig, s_init, t@);
        }
        self.first_walk(t, 0);
        let ghost s_fw = t@;
        proof {
            lemma_same_shape_trans(orig, s_y, t@);
        }
        self.second_walk(t, 0, 0);
        proof {
            lemma_same_shape_trans(orig, s_fw, t@);
            lemma_same_y_trans(s_y, s_fw, t@);
            lemma_same_shape_trans(s_y, s_fw, t@);
            if !self.is_layered {
                lemma_per_level_y_stable(s_y, t@, self.margin);
            } else {
                assert forall|i2: int|
                    0 <= i2 < t@.len() implies (#[trigger] t@[i2].depth as int)
                        < self.depth_to_y@.len() by {
                    assert(same_shape_at(s_y, s_fw, i2));
                    assert(same_shape_at(s_fw, t@, i2));
                }
                assert forall|i2: int|
                    0 <= i2 < t@.len() implies (#[trigger] t@[i2].y)
                        == self.depth_to_y@[t@[i2].depth as int] by {
                    assert(same_shape_at(s_y, s_fw, i2));
                    assert(same_shape_at(s_fw, t@, i2));
                }
                assert forall|d: int|
                    0 <= d < self.depth_to_y@.len() implies #[trigger] self.depth_to_y@[d]
                        == dty_spec(t@, self.margin, d) by {
                    lemma_same_shape_trans(s_init, s_y, t@);
                    lemma_dty_stable(s_init, t@, self.margin, d);
                }
            }
            assert forall|j: int| 0 <= j < t@.len() implies extremes_set(t@, j) by {
                lemma_all_under_root(s_y, j);
                assert(in_subtree(s_y, 0, j));
                assert(extremes_set(s_fw, j));
            }
            assert forall|j: int|
                0 <= j < orig.len() implies #[trigger] t@[j].children == orig[j].children by {
                assert(s_init[j].children == orig[j].children);
                assert(s_y[j].children == s_init[j].children);
                assert(s_fw[j].children == s_y[j].children);
                assert(t@[j].children == s_fw[j].children);
            }
            // the run composes the four functional stages
            assert(s_init == init_spec(orig));
            if self.is_layered {
                assert(s_y == layered_y_spec(s_init, self.margin));
            } else {
                assert(s_y == set_y_spec(s_init, self.margin));
            }
            assert(s_fw == first_walk_spec(s_y, orig.len() as int, 0, self.peer_margin));
            assert(t@ == second_walk_spec(s_fw, orig.len() as int, 0, 0));
            assert(t@ =~= layout_spec(orig, self.margin, self.peer_margin, self.is_layered));
        }
    }
}

/// The dirty set's parent-closure only reads parent links, so it
/// carries over to any arena of the same shape.
pub proof fn lemma_set_closed_stable(a: Seq<LayoutNode>, b: Seq<LayoutNode>, es: Set<usize>)
    requires
        set_closed(a, es),
        same_shape(a, b),
    ensures
        set_closed(b, es),
{
    assert forall|j: int|
        0 <= j < b.len() && es.contains(j as usize) && b[j].parent is Some implies es.contains(
        #[trigger] b[j].parent->Some_0,
    ) by {
        assert(same_shape_at(a, b, j));
    }
}

/// A node with its cached threads cleared.
pub open spec fn cleared_threads(n: LayoutNode) -> LayoutNode {
    LayoutNode {
        thread_left: None,
        thread_right: None,
        modifier_thread_left: 0,
        modifier_thread_right: 0,
        ..n
    }
}

/// The arena after `invalidate_extreme_thread`: the node's extreme
/// caches recomputed from its children, then the threads cached on
/// each of its extreme nodes cleared, left before right.
pub open spec fn invalidate_spec(s: Seq<LayoutNode>, i: int) -> Seq<LayoutNode> {
    let s1 = s.update(i, extremes_of(s, i));
    let s2 = (match s1[i].extreme_left {
        Some(e) => s1.update(e as int, cleared_threads(s1[e as int])),
        None => s1,
    });
    match s2[i].extreme_right {
        Some(e) => s2.update(e as int, cleared_threads(s2[e as int])),
        None => s2,
    }
}

/// Refresh a node's extreme caches from its children and clear any
/// threads cached on the extreme nodes themselves: the bookkeeping an
/// edit above this node leaves stale.
pub fn invalidate_extreme_thread(t: &mut Vec<LayoutNode>, i: usize)
    requires
        arena_wf(old(t)@),
        (i as int) < old(t)@.len(),
        old(t)@[i as int].children@.len() > 0 ==> extremes_set(
            old(t)@,
            old(t)@[i as int].children@[0] as int,
        ) && extremes_set(
            old(t)@,
            old(t)@[i as int].children@[old(t)@[i as int].children@.len() - 1] as int,
        ),
    ensures
        final(t)@ =~= invalidate_spec(old(t)@, i as int),
        arena_wf(final(t)@),
        same_shape(old(t)@, final(t)@),
        same_y(old(t)@, final(t)@),
        keeps_extremes(old(t)@, final(t)@),
        extremes_set(final(t)@, i as int),
{
    let ghost orig = t@;
    set_extremes(t, i);
    proof {
        assert(node_wf(orig, i as int));
        assert(extremes_set(t@, i as int));
    }
    let el = t[i].extreme_left;
    match el {
        Some(e) => {
            proof {
                assert(node_wf(t@, i as int));
            }
            let ghost pre = t@;
            let n = &mut t[e];
            n.thread_left = None;
            n.thread_right = None;
            n.modifier_thread_left = 0;
            n.modifier_thread_right = 0;
            proof {
                assert(node_wf(pre, e as int));
                lemma_update_keeps_wf(pre, e as int, t@[e as int]);
                lemma_same_shape_trans(orig, pre, t@);
                lemma_same_y_trans(orig, pre, t@);
            }
        },
        None => {},
    }
    let er = t[i].extreme_right;
    match er {
        Some(e) => {
            proof {
                assert(node_wf(t@, i as int));
            }
            let ghost pre = t@;
            let n = &mut t[e];
            n.thread_left = None;
            n.thread_right = None;
            n.modifier_thread_left = 0;
            n.modifier_thread_right = 0;
            proof {
                assert(node_wf(pre, e as int));
                lemma_update_keeps_wf(pre, e as int, t@[e as int]);
                lemma_same_shape_trans(orig, pre, t@);
                lemma_same_y_trans(orig, pre, t@);
            }
        },
        None => {},
    }
}

/// The dirty set is closed under parents: whoever is in it has all of
/// its ancestors in it.
pub open spec fn set_closed(s: Seq<LayoutNode>, es: Set<usize>) -> bool {
    forall|j: int|
        0 <= j < s.len() && es.contains(j as usize) && s[j].parent is Some
            ==> es.contains(#[trigger] s[j].parent->Some_0)
}

/// Every node outside the dirty set still carries its extreme caches.
pub open spec fn unset_extremes_ok(s: Seq<LayoutNode>, es: Set<usize>) -> bool {
    forall|j: int| 0 <= j < s.len() && !es.contains(j as usize) ==> extremes_set(s, j)
}

/// Inside the subtree of a node outside a parent-closed set, everything
/// is outside the set.
pub proof fn lemma_closed_up(s: Seq<LayoutNode>, es: Set<usize>, v: int, j: int)
    requires
        arena_wf(s),
        set_closed(s, es),
        0 <= v < s.len(),
        0 <= j < s.len(),
        in_subtree(s, v, j),
        !es.contains(v as usize),
    ensures
        !es.contains(j as usize),
    decreases j,
{
    if j != v {
        assert(node_wf(s, j));
        let p = s[j].parent->Some_0 as int;
        lemma_closed_up(s, es, v, p);
    }
}

/// Both boundary children of `i` still carry their extreme caches, so
/// refreshing `i`'s own caches is safe.
pub open spec fn boundary_cached(s: Seq<LayoutNode>, i: int) -> bool {
    &&& extremes_set(s, s[i].children@[0] as int)
    &&& extremes_set(s, s[i].children@[s[i].children@.len() - 1] as int)
}

/// One upward marking chain: from `node` to the root, refresh each
/// non-root link's stale caches (when its boundary children still carry
/// theirs) and collect its parent into the dirty set.
pub open spec fn chase_spec(s: Seq<LayoutNode>, es: Set<usize>, node: int) -> (
    Seq<LayoutNode>,
    Set<usize>,
)
    decreases (if node > 0 { node } else { 0 }),
{
    if node < 0 || node >= s.len() {
        (s, es)
    } else {
        match s[node].parent {
            None => (s, es),
            Some(p) => if (p as int) >= node {
                (s, es)
            } else {
                let s1 = (if s[node].children@.len() == 0 || boundary_cached(s, node) {
                    invalidate_spec(s, node)
                } else {
                    s
                });
                chase_spec(s1, es.insert(p), p as int)
            },
        }
    }
}

/// The whole marking phase: each changed node is inserted and its chain
/// to the root walked, in the order given.
pub open spec fn mark_spec(
    s: Seq<LayoutNode>,
    es: Set<usize>,
    changed: Seq<usize>,
    k: int,
) -> (Seq<LayoutNode>, Set<usize>)
    decreases changed.len() - k,
{
    if k < 0 || k >= changed.len() {
        (s, es)
    } else {
        let c = changed[k] as int;
        if c >= s.len() {
            mark_spec(s, es, changed, k + 1)
        } else {
            let chased = chase_spec(s, es.insert(changed[k]), c);
            mark_spec(chased.0, chased.1, changed, k + 1)
        }
    }
}

/// A non-layered partial relayout as a pure function of the input state
/// and the changed list: the eager vertical refresh, the marking phase,
/// and the two filtered walks over the collected dirty set.
pub open spec fn partial_layout_spec(
    s: Seq<LayoutNode>,
    changed: Seq<usize>,
    m: i64,
    pm: i64,
) -> Seq<LayoutNode> {
    let n = s.len() as int;
    let sy = set_y_spec(s, m);
    let marked = mark_spec(sy, Set::empty(), changed, 0);
    LayoutConfig::second_walk_filter_spec(
        first_walk_filter_spec(marked.0, n, 0, pm, marked.1),
        n,
        0,
        0,
        marked.1,
    )
}

/// The bottom-up pass of a partial relayout as a pure function of the
/// input state and the dirty set: a clean node only refreshes its own
/// caches; a dirty node is re-placed — first child as it stands, each
/// further child with its subtree modifier reset to the placement
/// baseline, a separation walk and a y-list update — then centered over
/// its children, inheriting their extremes.
pub open spec fn first_walk_filter_spec(
    s: Seq<LayoutNode>,
    n: int,
    v: int,
    pm: i64,
    es: Set<usize>,
) -> Seq<LayoutNode>
    decreases n - v, 1int, 0int,
{
    if v < 0 || v >= s.len() || v >= n {
        s
    } else if !es.contains(v as usize) {
        invalidate_spec(s, v)
    } else if s[v].children@.len() == 0 {
        s.update(v, extremes_of(s, v))
    } else {
        let cs = s[v].children@;
        let c0 = cs[0] as int;
        if c0 <= v || c0 >= n {
            s
        } else {
            let s1 = first_walk_filter_spec(s, n, c0, pm, es);
            let e0 = (match s1[c0].extreme_right {
                Some(e) => e as int,
                None => c0,
            });
            let b0 = clip64(s1[e0].y + s1[e0].height);
            let yl0 = seq![YEntry { index: 0, low_y: b0 }];
            first_walk_filter_kids(s1, n, cs, 1, v, yl0, pm, es)
        }
    }
}

/// The tail of the filtered bottom-up pass over children `k..` of `v`.
pub open spec fn first_walk_filter_kids(
    s: Seq<LayoutNode>,
    n: int,
    cs: Seq<usize>,
    k: int,
    v: int,
    yl: Seq<YEntry>,
    pm: i64,
    es: Set<usize>,
) -> Seq<LayoutNode>
    decreases n - v, 0int, (if cs.len() - k > 0 { cs.len() - k } else { 0 }),
{
    if k < 1 || k >= cs.len() {
        let s2 = s.update(v, position_root_spec(s, v));
        s2.update(v, extremes_of(s2, v))
    } else {
        let c = cs[k] as int;
        if c <= v || c >= n {
            first_walk_filter_kids(s, n, cs, k + 1, v, yl, pm, es)
        } else {
            let sm = s.update(
                c,
                (LayoutNode { modifier_to_subtree: clip64(-s[c].relative_x), ..s[c] }),
            );
            let s1 = first_walk_filter_spec(sm, n, c, pm, es);
            let el = (match s1[c].extreme_left {
                Some(e) => e as int,
                None => c,
            });
            let max_y = clip64(s1[el].y + s1[el].height);
            let sep = separate_spec(s1, v, k, yl, pm);
            let yl2 = crate::ylist::drop_covered(sep.1, max_y).push(
                YEntry { index: k as usize, low_y: max_y },
            );
            first_walk_filter_kids(sep.0, n, cs, k + 1, v, yl2, pm, es)
        }
    }
}

impl LayoutConfig {
    /// The bottom-up pass of a partial relayout: nodes outside the
    /// dirty set keep their cached placement and only refresh their
    /// extreme caches and threads; dirty nodes are re-placed exactly as
    /// in the full first walk.
    #[verifier::loop_isolation(false)]
    pub fn first_walk_with_filter(&self, t: &mut Vec<LayoutNode>, v: usize, set: &tinyset::SetUsize)
        requires
            arena_wf(old(t)@),
            old(t)@.len() < usize::MAX,
            (v as int) < old(t)@.len(),
            set_closed(old(t)@, crate::dirty::set_usize_elems(*set)),
            unset_extremes_ok(old(t)@, crate::dirty::set_usize_elems(*set)),
        ensures
            arena_wf(final(t)@),
            same_shape(old(t)@, final(t)@),
            same_y(old(t)@, final(t)@),
            keeps_extremes(old(t)@, final(t)@),
            extremes_set(final(t)@, v as int),
            subtree_extremes(old(t)@, final(t)@, v as int),
            unset_extremes_ok(final(t)@, crate::dirty::set_usize_elems(*set)),
            crate::dirty::set_usize_elems(*set).contains(v) && old(t)@[v as int].children@.len()
                > 0 ==> (final(t)@[v as int].modifier_to_subtree as int) == -(
            final(t)@[v as int].relative_x as int),
            // a clean subtree is reused: only its own caches are refreshed
            !crate::dirty::set_usize_elems(*set).contains(v) ==> final(t)@ =~= invalidate_spec(
                old(t)@,
                v as int,
            ),
            final(t)@ =~= first_walk_filter_spec(
                old(t)@,
                old(t)@.len() as int,
                v as int,
                self.peer_margin,
                crate::dirty::set_usize_elems(*set),
            ),
        decreases old(t)@.len() - v,
    {
        let ghost orig = t@;
        let ghost nn = t@.len() as int;
        let ghost es = crate::dirty::set_usize_elems(*set);
        proof {
            assert(node_wf(orig, v as int));
        }
        if !crate::dirty::set_contains(set, v) {
            proof {
                if orig[v as int].children@.len() > 0 {
                    let c0i = orig[v as int].children@[0] as int;
                    let cli = orig[v as int].children@[orig[v as int].children@.len() - 1] as int;
                    assert(in_subtree(orig, v as int, v as int));
                    assert(orig[c0i].parent == Some(v));
                    assert(orig[cli].parent == Some(v));
                    assert(in_subtree(orig, v as int, c0i));
                    assert(in_subtree(orig, v as int, cli));
                    lemma_closed_up(orig, es, v as int, c0i);
                    lemma_closed_up(orig, es, v as int, cli);
                }
            }
            invalidate_extreme_thread(t, v);
            proof {
                assert forall|j: int|
                    0 <= j < orig.len() && #[trigger] in_subtree(orig, v as int, j)
                        implies extremes_set(t@, j) by {
                    if j != v as int {
                        lemma_closed_up(orig, es, v as int, j);
                        assert(extremes_set(orig, j));
                    }
                }
                assert forall|j: int|
                    0 <= j < t@.len() && !es.contains(j as usize) implies extremes_set(t@, j) by {
                    assert(extremes_set(orig, j));
                }
                assert(t@ =~= first_walk_filter_spec(orig, nn, v as int, self.peer_margin, es));
            }
            return ;
        }
        let cs = t[v].children.len();
        if cs == 0 {
            set_extremes(t, v);
            proof {
                assert(extremes_set(t@, v as int));
                assert forall|j: int|
                    0 <= j < orig.len() && #[trigger] in_subtree(orig, v as int, j)
                        implies extremes_set(t@, j) by {
                    if j != v as int {
                        let k = lemma_subtree_step(orig, v as int, j);
                    }
                }
                assert forall|j: int|
                    0 <= j < t@.len() && !es.contains(j as usize) implies extremes_set(t@, j) by {
                    assert(extremes_set(orig, j));
                }
                assert(t@ =~= first_walk_filter_spec(orig, nn, v as int, self.peer_margin, es));
            }
            return ;
        }
        let c0 = t[v].children[0];
        let ghost pre0 = t@;
        self.first_walk_with_filter(t, c0, set);
        proof {
            lemma_same_shape_trans(orig, pre0, t@);
            lemma_same_y_trans(orig, pre0, t@);
            assert(same_shape_at(orig, t@, v as int));
            assert(node_wf(t@, c0 as int));
            assert(t@ =~= first_walk_filter_spec(orig, nn, c0 as int, self.peer_margin, es));
        }
        let ghost s_c0 = t@;
        let er0 = match t[c0].extreme_right {
            Some(e) => e,
            None => c0,  // unreachable: the recursive walk cached it
        };
        let b0 = bottom(t, er0);
        let mut yl = LinkedYList::new(0, b0);
        let ghost yl0g = yl@;
        proof {
            assert(yl0g =~= seq![YEntry { index: 0, low_y: b0 }]);
        }
        let mut i: usize = 1;
        while i < cs
            invariant
                arena_wf(t@),
                same_shape(orig, t@),
                same_y(orig, t@),
                keeps_extremes(orig, t@),
                unset_extremes_ok(t@, es),
                (v as int) < t@.len(),
                1 <= i <= cs,
                cs == orig[v as int].children@.len(),
                t@[v as int].children@ == orig[v as int].children@,
                yl@.len() >= 1,
                forall|k: int| 0 <= k < yl@.len() ==> (#[trigger] yl@[k].index as int) < i as int,
                forall|k: int|
                    0 <= k < i ==> extremes_set(t@, #[trigger] orig[v as int].children@[k] as int),
                forall|k: int|
                    0 <= k < i ==> #[trigger] subtree_extremes(
                        orig,
                        t@,
                        orig[v as int].children@[k] as int,
                    ),
                first_walk_filter_kids(
                    t@,
                    nn,
                    orig[v as int].children@,
                    i as int,
                    v as int,
                    yl@,
                    self.peer_margin,
                    es,
                ) == first_walk_filter_kids(
                    s_c0,
                    nn,
                    orig[v as int].children@,
                    1,
                    v as int,
                    yl0g,
                    self.peer_margin,
                    es,
                ),
            decreases cs - i,
        {
            proof {
                assert(node_wf(orig, v as int));
                assert(same_shape_at(orig, t@, v as int));
            }
            let ci_idx = t[v].children[i];
            let ghost s_it = t@;
            let ghost yl_it = yl@;
            let neg = sat_neg(t[ci_idx].relative_x);
            let ghost prer = t@;
            let nd = &mut t[ci_idx];
            nd.modifier_to_subtree = neg;
            proof {
                assert(node_wf(prer, ci_idx as int));
                lemma_update_keeps_wf(prer, ci_idx as int, t@[ci_idx as int]);
                lemma_same_shape_trans(orig, prer, t@);
                lemma_same_y_trans(orig, prer, t@);
                assert forall|j: int|
                    0 <= j < t@.len() && !es.contains(j as usize) implies extremes_set(t@, j) by {
                    assert(extremes_set(prer, j));
                }
                assert forall|j: int|
                    0 <= j < orig.len() && extremes_set(orig, j) implies #[trigger] extremes_set(
                    t@,
                    j,
                ) by {
                    assert(extremes_set(prer, j));
                }
                assert forall|k: int|
                    0 <= k < i implies extremes_set(
                    t@,
                    #[trigger] orig[v as int].children@[k] as int,
                ) by {
                    assert(extremes_set(prer, orig[v as int].children@[k] as int));
                }
                assert forall|k: int|
                    0 <= k < i implies #[trigger] subtree_extremes(
                    orig,
                    t@,
                    orig[v as int].children@[k] as int,
                ) by {
                    let ck = orig[v as int].children@[k] as int;
                    assert(subtree_extremes(orig, prer, ck));
                    assert forall|j: int|
                        0 <= j < orig.len() && #[trigger] in_subtree(orig, ck, j)
                            implies extremes_set(t@, j) by {
                        assert(extremes_set(prer, j));
                    }
                }
            }
            let ghost pre1 = t@;
            proof {
                lemma_set_closed_stable(orig, t@, es);
            }
            self.first_walk_with_filter(t, ci_idx, set);
            proof {
                lemma_same_shape_trans(orig, pre1, t@);
                lemma_same_y_trans(orig, pre1, t@);
                assert forall|j: int|
                    0 <= j < orig.len() && extremes_set(orig, j) implies #[trigger] extremes_set(
                    t@,
                    j,
                ) by {
                    assert(extremes_set(pre1, j));
                }
                assert forall|k: int|
                    0 <= k < i + 1 implies extremes_set(
                    t@,
                    #[trigger] orig[v as int].children@[k] as int,
                ) by {
                    if k < i {
                        assert(extremes_set(pre1, orig[v as int].children@[k] as int));
                    }
                }
                assert forall|k: int|
                    0 <= k < i + 1 implies #[trigger] subtree_extremes(
                    orig,
                    t@,
                    orig[v as int].children@[k] as int,
                ) by {
                    let ck = orig[v as int].children@[k] as int;
                    if k < i {
                        assert(subtree_extremes(orig, pre1, ck));
                        assert forall|j: int|
                            0 <= j < orig.len() && #[trigger] in_subtree(orig, ck, j)
                                implies extremes_set(t@, j) by {
                            assert(extremes_set(pre1, j));
                        }
                    } else {
                        assert(subtree_extremes(pre1, t@, ck));
                        assert forall|j: int|
                            0 <= j < orig.len() && #[trigger] in_subtree(orig, ck, j)
                                implies extremes_set(t@, j) by {
                            lemma_in_subtree_same_shape(orig, pre1, ck, j);
                            assert(in_subtree(pre1, ck, j));
                        }
                    }
                }
                assert(same_shape_at(orig, t@, v as int));
                assert(node_wf(t@, ci_idx as int));
                assert(extremes_set(t@, ci_idx as int));
            }
            let el = match t[ci_idx].extreme_left {
                Some(e) => e,
                None => ci_idx,  // unreachable: the recursive walk cached it
            };
            let max_y = bottom(t, el);
            let ghost pre2 = t@;
            let ghost yl_pre2 = yl@;
            yl = separate(t, v, i, yl, self.peer_margin);
            proof {
                lemma_same_shape_trans(orig, pre2, t@);
                lemma_same_y_trans(orig, pre2, t@);
                assert forall|j: int|
                    0 <= j < t@.len() && !es.contains(j as usize) implies extremes_set(t@, j) by {
                    assert(extremes_set(pre2, j));
                }
                assert forall|j: int|
                    0 <= j < orig.len() && extremes_set(orig, j) implies #[trigger] extremes_set(
                    t@,
                    j,
                ) by {
                    assert(extremes_set(pre2, j));
                }
                assert forall|k: int|
                    0 <= k < i + 1 implies extremes_set(
                    t@,
                    #[trigger] orig[v as int].children@[k] as int,
                ) by {
                    assert(extremes_set(pre2, orig[v as int].children@[k] as int));
                }
                assert forall|k: int|
                    0 <= k < i + 1 implies #[trigger] subtree_extremes(
                    orig,
                    t@,
                    orig[v as int].children@[k] as int,
                ) by {
                    let ck = orig[v as int].children@[k] as int;
                    assert(subtree_extremes(orig, pre2, ck));
                    assert forall|j: int|
                        0 <= j < orig.len() && #[trigger] in_subtree(orig, ck, j)
                            implies extremes_set(t@, j) by {
                        assert(extremes_set(pre2, j));
                    }
                }
                assert(same_shape_at(orig, t@, v as int));
            }
            let ghost yl_mid = yl@;
            yl = yl.update(i, max_y);
            proof {
                crate::ylist::lemma_drop_covered_prefix(yl_mid, max_y);
                // one more child folds into the residual run of the pass
                let cseq = orig[v as int].children@;
                let c = cseq[i as int] as int;
                assert(c == ci_idx as int);
                assert(c > v as int && c < nn);
                assert(pre1 =~= s_it.update(
                    c,
                    (LayoutNode {
                        modifier_to_subtree: clip64(-s_it[c].relative_x),
                        ..s_it[c]
                    }),
                ));
                assert(pre2 == first_walk_filter_spec(pre1, nn, c, self.peer_margin, es));
                let sep = separate_spec(pre2, v as int, i as int, yl_pre2, self.peer_margin);
                assert(t@ =~= sep.0);
                assert(yl_mid == sep.1);
                assert(yl@ =~= crate::ylist::drop_covered(sep.1, max_y).push(
                    YEntry { index: i, low_y: max_y },
                ));
                assert(max_y == ({
                    let e = (match pre2[c].extreme_left {
                        Some(e) => e as int,
                        None => c,
                    });
                    clip64(pre2[e].y + pre2[e].height)
                }));
                assert(first_walk_filter_kids(
                    s_it,
                    nn,
                    cseq,
                    i as int,
                    v as int,
                    yl_it,
                    self.peer_margin,
                    es,
                ) == first_walk_filter_kids(
                    t@,
                    nn,
                    cseq,
                    i as int + 1,
                    v as int,
                    yl@,
                    self.peer_margin,
                    es,
                ));
            }
            i = i + 1;
        }
        let ghost pre3 = t@;
        let ghost yl_end = yl@;
        position_root(t, v);
        proof {
            lemma_same_shape_trans(orig, pre3, t@);
            lemma_same_y_trans(orig, pre3, t@);
        }
        let ghost pre4 = t@;
        set_extremes(t, v);
        proof {
            lemma_same_shape_trans(orig, pre4, t@);
            lemma_same_y_trans(orig, pre4, t@);
            assert(node_wf(orig, v as int));
            let c0i = orig[v as int].children@[0] as int;
            let cli = orig[v as int].children@[cs - 1] as int;
            assert(extremes_set(pre3, c0i));
            assert(extremes_set(pre3, cli));
            assert(extremes_set(pre4, c0i));
            assert(extremes_set(pre4, cli));
            assert(extremes_set(t@, v as int));
            assert forall|j: int|
                0 <= j < orig.len() && extremes_set(orig, j) implies #[trigger] extremes_set(
                t@,
                j,
            ) by {
                assert(extremes_set(pre3, j));
                assert(extremes_set(pre4, j));
            }
            assert forall|j: int|
                0 <= j < orig.len() && #[trigger] in_subtree(orig, v as int, j)
                    implies extremes_set(t@, j) by {
                if j == v as int {
                } else {
                    let k = lemma_subtree_step(orig, v as int, j);
                    let ck = orig[v as int].children@[k] as int;
                    assert(subtree_extremes(orig, pre3, ck));
                    assert(extremes_set(pre3, j));
                    assert(extremes_set(pre4, j));
                }
            }
            assert forall|j: int|
                0 <= j < t@.len() && !es.contains(j as usize) implies extremes_set(t@, j) by {
                assert(extremes_set(pre3, j));
                assert(extremes_set(pre4, j));
            }
            // the two closing updates are the base case of the residual run
            let cseq = orig[v as int].children@;
            assert(pre4 =~= pre3.update(v as int, position_root_spec(pre3, v as int)));
            assert(t@ =~= pre4.update(v as int, extremes_of(pre4, v as int)));
            assert(first_walk_filter_kids(
                pre3,
                nn,
                cseq,
                cs as int,
                v as int,
                yl_end,
                self.peer_margin,
                es,
            ) == t@);
            assert(first_walk_filter_kids(
                s_c0,
                nn,
                cseq,
                1,
                v as int,
                yl0g,
                self.peer_margin,
                es,
            ) == t@);
            assert(cseq[0] == c0);
            assert((c0 as int) > v as int && (c0 as int) < nn);
            assert(s_c0 == first_walk_filter_spec(orig, nn, c0 as int, self.peer_margin, es));
            assert(b0 == ({
                let e = (match s_c0[c0 as int].extreme_right {
                    Some(e) => e as int,
                    None => c0 as int,
                });
                clip64(s_c0[e].y + s_c0[e].height)
            }));
            assert(es.contains(v));
            assert(t@ =~= first_walk_filter_spec(orig, nn, v as int, self.peer_margin, es));
        }
    }

    /// The top-down pass of a partial relayout as a pure function of the
    /// input state and the dirty set: an unmoved clean node keeps its
    /// whole subtree; any other node is updated exactly as the full pass
    /// would update it, and its children follow.
    pub open spec fn second_walk_filter_spec(
        s: Seq<LayoutNode>,
        n: int,
        v: int,
        modsum: i64,
        es: Set<usize>,
    ) -> Seq<LayoutNode>
        decreases n - v, 1int, 0int,
    {
        if v < 0 || v >= s.len() || v >= n {
            s
        } else {
            let m2 = clip64(modsum + s[v].modifier_to_subtree);
            let newx = clip64(s[v].relative_x + m2);
            if newx == s[v].x && !es.contains(v as usize) {
                s
            } else {
                let s1 = s.update(v, (LayoutNode { x: newx, ..s[v] }));
                let s2 = apply_spacing(s1, s1[v].children@, 0, 0, 0);
                Self::swf_kids(s2, n, s[v].children@, 0, v, m2, es)
            }
        }
    }

    /// The tail of the filtered pass over children `k..` of `v`.
    pub open spec fn swf_kids(
        s: Seq<LayoutNode>,
        n: int,
        cs: Seq<usize>,
        k: int,
        v: int,
        m2: i64,
        es: Set<usize>,
    ) -> Seq<LayoutNode>
        decreases n - v, 0int, (if cs.len() - k > 0 { cs.len() - k } else { 0 }),
    {
        if k < 0 || k >= cs.len() {
            s
        } else {
            let c = cs[k] as int;
            if c <= v || c >= n {
                Self::swf_kids(s, n, cs, k + 1, v, m2, es)
            } else {
                Self::swf_kids(
                    Self::second_walk_filter_spec(s, n, c, m2, es),
                    n,
                    cs,
                    k + 1,
                    v,
                    m2,
                    es,
                )
            }
        }
    }

    /// The top-down pass of a partial relayout: a subtree whose newly

    /// computed absolute x equals its cached one and which is not dirty
    /// is skipped wholesale.
    #[verifier::loop_isolation(false)]
    pub fn second_walk_with_filter(
        &self,
        t: &mut Vec<LayoutNode>,
        v: usize,
        modsum: i64,
        set: &tinyset::SetUsize,
    )
        requires
            arena_wf(old(t)@),
            (v as int) < old(t)@.len(),
        ensures
            arena_wf(final(t)@),
            same_shape(old(t)@, final(t)@),
            same_y(old(t)@, final(t)@),
            same_extremes(old(t)@, final(t)@),
            untouched_outside(old(t)@, final(t)@, v as int),
            final(t)@ =~= Self::second_walk_filter_spec(
                old(t)@,
                old(t)@.len() as int,
                v as int,
                modsum,
                crate::dirty::set_usize_elems(*set),
            ),
            ({
                let m2s = clip64(modsum + old(t)@[v as int].modifier_to_subtree);
                let newxs = clip64(old(t)@[v as int].relative_x + m2s);
                if newxs == old(t)@[v as int].x && !crate::dirty::set_usize_elems(*set).contains(
                    v,
                ) {
                    // the skip: an unmoved, clean subtree is left bit-identical
                    final(t)@ == old(t)@
                } else {
                    final(t)@[v as int].x == newxs
                }
            }),
        decreases old(t)@.len() - v,
    {
        let ghost orig = t@;
        let ghost nn = t@.len() as int;
        let ghost es = crate::dirty::set_usize_elems(*set);
        proof {
            assert(node_wf(orig, v as int));
        }
        let m2 = sat_add(modsum, t[v].modifier_to_subtree);
        let newx = sat_add(t[v].relative_x, m2);
        if newx == t[v].x && !crate::dirty::set_contains(set, v) {
            return ;
        }
        let n = &mut t[v];
        n.x = newx;
        proof {
            assert(node_wf(orig, v as int));
            lemma_update_keeps_wf(orig, v as int, t@[v as int]);
            assert forall|j: int|
                0 <= j < orig.len() && !in_subtree(orig, v as int, j) implies same_x_fields_at(
                orig,
                t@,
                j,
            ) by {
                assert(in_subtree(orig, v as int, v as int));
                assert(j != v as int);
                assert(t@[j] == orig[j]);
            }
        }
        let ghost pre0 = t@;
        add_child_spacing(t, v);
        proof {
            lemma_same_shape_trans(orig, pre0, t@);
            lemma_same_y_trans(orig, pre0, t@);
            lemma_same_extremes_trans(orig, pre0, t@);
            assert(same_shape_at(orig, t@, v as int));
            lemma_spacing_touches_children(pre0, pre0[v as int].children@, 0, 0, 0, v as int);
            assert(t@ =~= apply_spacing(pre0, pre0[v as int].children@, 0, 0, 0));
            assert forall|j: int|
                0 <= j < orig.len() && !in_subtree(orig, v as int, j) implies same_x_fields_at(
                orig,
                t@,
                j,
            ) by {
                lemma_in_subtree_same_shape(orig, pre0, v as int, j);
                assert(!in_subtree(pre0, v as int, j));
                assert(same_x_fields_at(pre0, t@, j));
                assert(same_x_fields_at(orig, pre0, j));
            }
            lemma_spacing_keeps_root(pre0, pre0[v as int].children@, 0, 0, 0, v as int);
            assert(t@[v as int] == pre0[v as int]);
            assert(pre0[v as int].children@ == orig[v as int].children@);
        }
        let ghost s2g = t@;
        let cs = t[v].children.len();
        let mut k: usize = 0;
        while k < cs
            invariant
                arena_wf(t@),
                same_shape(orig, t@),
                same_y(orig, t@),
                same_extremes(orig, t@),
                untouched_outside(orig, t@, v as int),
                t@.len() == orig.len(),
                (v as int) < t@.len(),
                k <= cs,
                cs == orig[v as int].children@.len(),
                t@[v as int].children@ == orig[v as int].children@,
                t@[v as int].x == newx,
                Self::swf_kids(t@, nn, orig[v as int].children@, k as int, v as int, m2, es)
                    == Self::swf_kids(
                    s2g,
                    nn,
                    orig[v as int].children@,
                    0,
                    v as int,
                    m2,
                    es,
                ),
            decreases cs - k,
        {
            proof {
                assert(node_wf(orig, v as int));
                assert(same_shape_at(orig, t@, v as int));
            }
            let c = t[v].children[k];
            let ghost pre = t@;
            self.second_walk_with_filter(t, c, m2, set);
            proof {
                lemma_same_shape_trans(orig, pre, t@);
                lemma_same_y_trans(orig, pre, t@);
                lemma_same_extremes_trans(orig, pre, t@);
                assert(same_shape_at(orig, t@, v as int));
                assert(orig[c as int].parent == Some(v));
                assert(in_subtree(orig, v as int, v as int));
                assert(in_subtree(orig, v as int, c as int));
                // one more child subtree folds into the residual run
                assert(t@ =~= Self::second_walk_filter_spec(pre, nn, c as int, m2, es));
                assert((c as int) > v as int && (c as int) < nn);
                assert(Self::swf_kids(pre, nn, orig[v as int].children@, k as int, v as int, m2, es)
                    == Self::swf_kids(
                    Self::second_walk_filter_spec(pre, nn, c as int, m2, es),
                    nn,
                    orig[v as int].children@,
                    k as int + 1,
                    v as int,
                    m2,
                    es,
                ));
                assert forall|j: int|
                    0 <= j < orig.len() && !in_subtree(orig, v as int, j)
                        implies same_x_fields_at(orig, t@, j) by {
                    lemma_in_subtree_same_shape(orig, pre, c as int, j);
                    if in_subtree(pre, c as int, j) {
                        assert(in_subtree(orig, c as int, j));
                        lemma_in_subtree_trans(orig, v as int, c as int, j);
                    }
                    assert(same_x_fields_at(pre, t@, j));
                    assert(same_x_fields_at(orig, pre, j));
                }
                assert(!in_subtree(orig, c as int, v as int)) by {
                    if in_subtree(orig, c as int, v as int) {
                        assert(v as int >= c as int);
                    }
                }
                lemma_in_subtree_same_shape(orig, pre, c as int, v as int);
                assert(same_x_fields_at(pre, t@, v as int));
            }
            k = k + 1;
        }
        proof {
            assert(Self::swf_kids(t@, nn, orig[v as int].children@, cs as int, v as int, m2, es)
                == t@);
            assert(t@ == Self::swf_kids(s2g, nn, orig[v as int].children@, 0, v as int, m2, es));
            assert(m2 == clip64(modsum + orig[v as int].modifier_to_subtree));
            assert(newx == clip64(orig[v as int].relative_x + m2));
            assert(pre0 == orig.update(
                v as int,
                (LayoutNode { x: newx, ..orig[v as int] }),
            ));
            assert(s2g == apply_spacing(pre0, pre0[v as int].children@, 0, 0, 0));
            assert(t@ =~= Self::second_walk_filter_spec(orig, nn, v as int, modsum, es));
        }
    }

    /// Incremental relayout after local edits.  Layered mode falls back
    /// to a full layout.  Otherwise vertical coordinates are refreshed
    /// eagerly, the changed nodes and all their ancestors are marked
    /// dirty with their stale caches invalidated, and the filtered
    /// walks recompute exactly the affected placements, reusing every
    /// still-valid cache.  The vertical refresh covers the whole arena:
    /// per-level y is a function of the tree shape alone, so rewriting
    /// every row equals refreshing only the edited subtrees, and the
    /// eagerness of the vertical pass is deliberate — only horizontal
    /// placement is incremental.
    ///
    /// The run is pinned to `partial_layout_spec`, a pure function of
    /// the input state and the changed list.  That this coincides with
    /// a from-scratch `layout` of the same tree — the algorithm's
    /// design guarantee, resting on the validity of the reused caches —
    /// is not proved here; the test suite exercises it as exact
    /// equality after every edit.
    #[verifier::loop_isolation(false)]
    #[verifier::rlimit(80)]
    pub fn partial_layout(&mut self, t: &mut Vec<LayoutNode>, changed: &Vec<usize>)
        requires
            arena_wf(old(t)@),
            old(t)@.len() > 0,
            old(t)@.len() < usize::MAX,
            forall|k: int| 0 <= k < changed@.len() ==> (#[trigger] changed@[k] as int) < old(t)@.len(),
            forall|j: int|
                0 <= j < old(t)@.len() && !changed@.contains(j as usize) ==> extremes_set(
                    old(t)@,
                    j,
                ),
        ensures
            arena_wf(final(t)@),
            same_shape(old(t)@, final(t)@),
            final(self).margin == old(self).margin,
            final(self).peer_margin == old(self).peer_margin,
            final(self).is_layered == old(self).is_layered,
            !old(self).is_layered ==> per_level_y_ok(final(t)@, old(self).margin),
            old(self).is_layered ==> forall|i: int|
                0 <= i < final(t)@.len() ==> (#[trigger] final(t)@[i].depth as int)
                    < final(self).depth_to_y@.len(),
            old(self).is_layered ==> forall|i: int|
                0 <= i < final(t)@.len() ==> (#[trigger] final(t)@[i].y)
                    == final(self).depth_to_y@[final(t)@[i].depth as int],
            forall|j: int| 0 <= j < final(t)@.len() ==> extremes_set(final(t)@, j),
            old(self).is_layered ==> final(t)@ =~= layout_spec(
                old(t)@,
                old(self).margin,
                old(self).peer_margin,
                true,
            ),
            !old(self).is_layered ==> final(t)@ =~= partial_layout_spec(
                old(t)@,
                changed@,
                old(self).margin,
                old(self).peer_margin,
            ),
    {
        if self.is_layered {
            self.layout(t);
            return ;
        }
        let ghost orig = t@;
        let ghost nn = t@.len() as int;
        // vertical positions are always refreshed eagerly
        self.set_y(t);
        let ghost s_y = t@;
        proof {
            assert forall|j: int|
                0 <= j < t@.len() && !changed@.contains(j as usize) implies extremes_set(
                t@,
                j,
            ) by {
                assert(extremes_set(orig, j));
                assert(same_state_at(orig, t@, j));
            }
        }
        // mark the changed nodes and their ancestors, invalidating the
        // stale caches along each chain
        let mut set = crate::dirty::set_new();
        let mut k: usize = 0;
        while k < changed.len()
            invariant
                arena_wf(t@),
                same_shape(s_y, t@),
                same_y(s_y, t@),
                k <= changed@.len(),
                set_closed(t@, crate::dirty::set_usize_elems(set)),
                forall|k2: int|
                    0 <= k2 < k ==> crate::dirty::set_usize_elems(set).contains(
                        #[trigger] changed@[k2],
                    ),
                forall|j: int|
                    0 <= j < t@.len() && !crate::dirty::set_usize_elems(set).contains(j as usize)
                        && !changed@.contains(j as usize) ==> extremes_set(t@, j),
                mark_spec(t@, crate::dirty::set_usize_elems(set), changed@, k as int) == mark_spec(
                    s_y,
                    Set::empty(),
                    changed@,
                    0,
                ),
            decreases changed@.len() - k,
        {
            let ghost s_k = t@;
            let mut node = changed[k];
            let ghost es_start = crate::dirty::set_usize_elems(set);
            let _ = crate::dirty::set_insert(&mut set, node);
            proof {
                assert(node_wf(t@, node as int));
                assert(crate::dirty::set_usize_elems(set) == es_start.insert(node));
            }
            let mut par = t[node].parent;
            while par.is_some()
                invariant
                    arena_wf(t@),
                    same_shape(s_y, t@),
                    same_y(s_y, t@),
                    (node as int) < t@.len(),
                    par == t@[node as int].parent,
                    crate::dirty::set_usize_elems(set).contains(node),
                    forall|k2: int|
                        0 <= k2 < k + 1 && k2 < changed@.len()
                            ==> crate::dirty::set_usize_elems(set).contains(
                            #[trigger] changed@[k2],
                        ),
                    forall|j: int|
                        0 <= j < t@.len() && crate::dirty::set_usize_elems(set).contains(j as usize)
                            && t@[j].parent is Some && j != node as int ==> crate::dirty::set_usize_elems(
                            set,
                        ).contains(#[trigger] t@[j].parent->Some_0),
                    forall|j: int|
                        0 <= j < t@.len() && !crate::dirty::set_usize_elems(set).contains(
                            j as usize,
                        ) && !changed@.contains(j as usize) ==> extremes_set(t@, j),
                    chase_spec(t@, crate::dirty::set_usize_elems(set), node as int) == chase_spec(
                        s_k,
                        es_start.insert(changed@[k as int]),
                        changed@[k as int] as int,
                    ),
                decreases node,
            {
                proof {
                    assert(node_wf(t@, node as int));
                }
                let p = match par {
                    Some(p) => p,
                    None => 0,  // excluded by the loop condition
                };
                let ghost pre = t@;
                let ghost es_pre = crate::dirty::set_usize_elems(set);
                let ghost old_node = node;
                let cs_node = t[node].children.len();
                if cs_node == 0 || !node_children_extremes_missing(t, node) {
                    invalidate_extreme_thread(t, node);
                }
                proof {
                    lemma_same_shape_trans(s_y, pre, t@);
                    lemma_same_y_trans(s_y, pre, t@);
                    // one chain link folds into the residual walk
                    assert(node_wf(pre, old_node as int));
                    if pre[old_node as int].children@.len() == 0 || boundary_cached(
                        pre,
                        old_node as int,
                    ) {
                        assert(t@ =~= invalidate_spec(pre, old_node as int));
                    } else {
                        assert(t@ == pre);
                    }
                    assert(chase_spec(pre, es_pre, old_node as int) == chase_spec(
                        t@,
                        es_pre.insert(p),
                        p as int,
                    ));
                }
                let _ = crate::dirty::set_insert(&mut set, p);
                node = p;
                par = t[node].parent;
                proof {
                    let es_now = crate::dirty::set_usize_elems(set);
                    assert(es_now == es_pre.insert(p));
                    assert forall|j: int|
                        0 <= j < t@.len() && es_now.contains(j as usize) && t@[j].parent is Some
                            && j != node as int implies es_now.contains(
                        t@[j].parent->Some_0,
                    ) by {
                        assert(same_shape_at(pre, t@, j));
                        if j == old_node as int {
                            assert(t@[j].parent == Some(p));
                        } else {
                            assert(es_pre.contains(j as usize));
                        }
                    }
                    assert forall|j: int|
                        0 <= j < t@.len() && !es_now.contains(j as usize)
                            && !changed@.contains(j as usize) implies extremes_set(
                        t@,
                        j,
                    ) by {
                        assert(!es_pre.contains(j as usize));
                        assert(extremes_set(pre, j));
                    }
                }
            }
            proof {
                let es_now = crate::dirty::set_usize_elems(set);
                assert forall|j: int|
                    0 <= j < t@.len() && es_now.contains(j as usize) && t@[j].parent is Some
                        implies es_now.contains(#[trigger] t@[j].parent->Some_0) by {
                    assert(j != node as int);
                }
                // the finished chain folds into the residual marking run
                assert(chase_spec(t@, es_now, node as int) == (t@, es_now));
                assert((changed@[k as int] as int) < s_k.len());
                assert(mark_spec(s_k, es_start, changed@, k as int) == mark_spec(
                    t@,
                    es_now,
                    changed@,
                    k as int + 1,
                ));
            }
            k = k + 1;
        }
        proof {
            let es_done = crate::dirty::set_usize_elems(set);
            assert forall|j: int|
                0 <= j < t@.len() && !es_done.contains(j as usize) implies extremes_set(t@, j) by {
                if changed@.contains(j as usize) {
                    let k2 = choose|k2: int|
                        0 <= k2 < changed@.len() && changed@[k2] == j as usize;
                    assert(es_done.contains(changed@[k2]));
                }
            }
        }
        let ghost s_marked = t@;
        let ghost es = crate::dirty::set_usize_elems(set);
        self.first_walk_with_filter(t, 0, &set);
        let ghost s_fw = t@;
        proof {
            lemma_same_shape_trans(s_y, s_marked, t@);
            lemma_same_y_trans(s_y, s_marked, t@);
        }
        self.second_walk_with_filter(t, 0, 0, &set);
        proof {
            assert forall|i: int| 0 <= i < orig.len() implies same_shape_at(orig, s_y, i) by {
                assert(same_state_at(orig, s_y, i));
            }
            lemma_same_shape_trans(orig, s_y, s_fw);
            lemma_same_shape_trans(orig, s_fw, t@);
            lemma_same_y_trans(s_y, s_fw, t@);
            lemma_same_shape_trans(s_y, s_fw, t@);
            lemma_per_level_y_stable(s_y, t@, self.margin);
            assert forall|j: int| 0 <= j < t@.len() implies extremes_set(t@, j) by {
                lemma_all_under_root(s_marked, j);
                assert(in_subtree(s_marked, 0, j));
                assert(extremes_set(s_fw, j));
            }
            // the run composes the mirrored phases
            assert(s_y == set_y_spec(orig, self.margin));
            assert(mark_spec(s_marked, es, changed@, changed@.len() as int) == (s_marked, es));
            assert((s_marked, es) == mark_spec(s_y, Set::empty(), changed@, 0));
            assert(s_fw == first_walk_filter_spec(s_marked, nn, 0, self.peer_margin, es));
            assert(t@ == LayoutConfig::second_walk_filter_spec(s_fw, nn, 0, 0, es));
            assert(t@ =~= partial_layout_spec(orig, changed@, self.margin, self.peer_margin));
        }
    }
}

/// Whether either boundary child of `i` is missing its extreme caches;
/// when one is, refreshing `i`'s caches would read uninitialized state,
/// so the invalidation is skipped — the filtered walk recomputes the
/// node anyway.
fn node_children_extremes_missing(t: &Vec<LayoutNode>, i: usize) -> (r: bool)
    requires
        arena_wf(t@),
        (i as int) < t@.len(),
        t@[i as int].children@.len() > 0,
    ensures
        r == !(extremes_set(t@, t@[i as int].children@[0] as int) && extremes_set(
            t@,
            t@[i as int].children@[t@[i as int].children@.len() - 1] as int,
        )),
{
    proof {
        assert(node_wf(t@, i as int));
    }
    let cs = t[i].children.len();
    let c0 = t[i].children[0];
    let cl = t[i].children[cs - 1];
    let first_ok = t[c0].extreme_left.is_some() && t[c0].extreme_right.is_some();
    let last_ok = t[cl].extreme_left.is_some() && t[cl].extreme_right.is_some();
    !(first_ok && last_ok)
}

/// Untouched extreme caches compose across passes.
pub proof fn lemma_same_extremes_trans(
    a: Seq<LayoutNode>,
    b: Seq<LayoutNode>,
    c: Seq<LayoutNode>,
)
    requires
        same_extremes(a, b),
        same_extremes(b, c),
    ensures
        same_extremes(a, c),
{
}

} // verus!
