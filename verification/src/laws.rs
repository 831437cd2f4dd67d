//! Row-alignment and determinism guarantees of the vertical policies.

use vstd::prelude::*;
use crate::node::{LayoutNode, arena_wf, node_wf, same_shape, same_shape_at};
use crate::engine::{
    per_level_y_ok, y_parent_step, layout_spec, init_spec, set_y_spec, y_of, first_walk_spec,
    second_walk_spec, extremes_of, reset_node, apply_spacing,
};

verus! {

/// Per-level mode aligns siblings: in any arena satisfying the
/// per-level row policy — which `layout` and `partial_layout` establish
/// — two nodes with the same parent share one vertical coordinate.
pub proof fn lemma_siblings_share_row(s: Seq<LayoutNode>, m: i64, i: int, j: int)
    requires
        arena_wf(s),
        per_level_y_ok(s, m),
        0 <= i < s.len(),
        0 <= j < s.len(),
        s[i].parent == s[j].parent,
    ensures
        s[i].y == s[j].y,
{
    assert(node_wf(s, i));
    assert(node_wf(s, j));
}

/// Layered mode aligns whole rows: when every node sits on the
/// baseline of its depth — which a layered `layout` establishes — two
/// nodes of equal depth share one vertical coordinate, siblings or not.
pub proof fn lemma_rows_share_baseline(
    s: Seq<LayoutNode>,
    dty: Seq<i64>,
    i: int,
    j: int,
)
    requires
        forall|k: int|
            0 <= k < s.len() ==> (#[trigger] s[k].depth as int) < dty.len() && s[k].y == dty[s[k].depth as int],
        0 <= i < s.len(),
        0 <= j < s.len(),
        s[i].depth == s[j].depth,
    ensures
        s[i].y == s[j].y,
{
}

/// The per-level vertical coordinates are a function of the tree shape
/// alone: two arenas of the same shape that both satisfy the per-level
/// row policy — as any two runs of `layout` or `partial_layout` on one
/// tree do — agree on every node's y.  This is the vertical half of
/// run-to-run determinism: laying out twice, or incrementally instead
/// of from scratch, cannot move a row.
pub proof fn lemma_per_level_y_deterministic(
    a: Seq<LayoutNode>,
    b: Seq<LayoutNode>,
    m: i64,
    i: int,
)
    requires
        arena_wf(a),
        same_shape(a, b),
        per_level_y_ok(a, m),
        per_level_y_ok(b, m),
        0 <= i < a.len(),
    ensures
        a[i].y == b[i].y,
    decreases i,
{
    assert(node_wf(a, i));
    assert(same_shape_at(a, b, i));
    match a[i].parent {
        Some(p) => {
            lemma_per_level_y_deterministic(a, b, m, p as int);
            assert(same_shape_at(a, b, p as int));
        },
        None => {},
    }
}

/// Layout is deterministic: the run is a pure function of the tree
/// shape and box sizes alone, never of the current coordinates, caches
/// or deferred shifts.  Two arenas carrying the same tree — as one tree
/// does across its own layout runs, which rewrite coordinates and
/// caches but never the child lists — are laid out identically,
/// coordinate for coordinate.
pub proof fn lemma_layout_deterministic(
    a: Seq<LayoutNode>,
    b: Seq<LayoutNode>,
    m: i64,
    pm: i64,
    layered: bool,
)
    requires
        same_shape(a, b),
        forall|i: int| 0 <= i < a.len() ==> #[trigger] b[i].children == a[i].children,
    ensures
        layout_spec(a, m, pm, layered) == layout_spec(b, m, pm, layered),
{
    assert forall|i: int| 0 <= i < a.len() implies init_spec(a)[i] == init_spec(b)[i] by {
        assert(same_shape_at(a, b, i));
        assert(b[i].children == a[i].children);
        assert(reset_node(a[i]) == reset_node(b[i]));
    }
    assert(init_spec(a) =~= init_spec(b));
}

/// Layout is idempotent: a run leaves the tree alone except for its
/// coordinates and caches, so running again on its own output — `b`,
/// the laid-out arena — reproduces that output, coordinate for
/// coordinate.
pub proof fn lemma_layout_idempotent(
    a: Seq<LayoutNode>,
    b: Seq<LayoutNode>,
    m: i64,
    pm: i64,
    layered: bool,
)
    requires
        same_shape(a, b),
        forall|i: int| 0 <= i < a.len() ==> #[trigger] b[i].children == a[i].children,
        b == layout_spec(a, m, pm, layered),
    ensures
        layout_spec(b, m, pm, layered) == b,
{
    lemma_layout_deterministic(a, b, m, pm, layered);
}

/// A tree of one childless node is laid out at the origin: both
/// coordinates of the root come out 0, whatever its size, the margins,
/// and whatever stale state it carried in.
pub proof fn lemma_single_root_at_origin(n: LayoutNode, m: i64, pm: i64)
    requires
        n.children@.len() == 0,
    ensures
        layout_spec(seq![n], m, pm, false)[0].x == 0,
        layout_spec(seq![n], m, pm, false)[0].y == 0,
{
    let s = seq![n];
    let s0 = init_spec(s);
    assert(s0 =~= seq![reset_node(n)]);
    let sy = set_y_spec(s0, m);
    assert(y_of(s0, m, 0) == 0);
    assert(sy =~= seq![(LayoutNode { y: 0, ..reset_node(n) })]);
    let sf = first_walk_spec(sy, 1, 0, pm);
    assert(sf =~= sy.update(0, extremes_of(sy, 0)));
    assert(sf[0].relative_x == 0 && sf[0].modifier_to_subtree == 0);
    let s1 = sf.update(0, (LayoutNode { x: 0, ..sf[0] }));
    assert(second_walk_spec(sf, 1, 0, 0) == apply_spacing(s1, s1[0].children@, 0, 0, 0));
    assert(apply_spacing(s1, s1[0].children@, 0, 0, 0) == s1);
    assert(layout_spec(s, m, pm, false) == s1);
    assert(s1[0].x == 0 && s1[0].y == 0);
}

} // verus!
