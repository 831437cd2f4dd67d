//! The public tree-layout interface.
//!
//! A `TidyTree` owns the node arena and a layout configuration.  Callers
//! add nodes and resize boxes through it; `layout` computes coordinates
//! for the whole tree, `partial_layout` recomputes only what a set of
//! edits invalidates.  Edits made through the facade are recorded, so a
//! partial run never trusts a stale cache.

use vstd::prelude::*;
use crate::node::{
    LayoutNode, arena_wf, node_wf, same_shape, same_shape_at, kept_children, extremes_set,
    lemma_update_keeps_wf,
};
use crate::engine::{
    LayoutConfig, dty_spec, layout_spec, partial_layout_spec, per_level_y_ok, x_resolved,
    lemma_depth_le_index,
};

verus! {

/// The arena index of the node carrying `id`; ids are unique, so the
/// index is determined whenever the identifier is present.
pub open spec fn idx_of_id(s: Seq<LayoutNode>, id: u64) -> int {
    choose|i: int| 0 <= i < s.len() && s[i].id == id
}

/// The arena indices of a list of identifiers.
pub open spec fn indices_of(s: Seq<LayoutNode>, ids: Seq<u64>) -> Seq<usize> {
    Seq::new(ids.len(), |k: int| idx_of_id(s, ids[k]) as usize)
}

/// The identifier a caller passes for "no parent".
pub const NULL_ID: u64 = u64::MAX;

/// Which layout policy the tree uses.
#[derive(PartialEq, Eq, Structural, Clone, Copy, Debug)]
pub enum LayoutType {
    Tidy,
    LayeredTidy,
}

/// A tree with box sizes and a tidy-layout engine attached.
pub struct TidyTree {
    pub nodes: Vec<LayoutNode>,
    pub config: LayoutConfig,
    pub layout_type: LayoutType,
    pub dirty: Vec<usize>,
}

impl TidyTree {
    /// The arena contents, for specifications.
    pub open spec fn arena(&self) -> Seq<LayoutNode> {
        self.nodes@
    }

    /// Some node carries this identifier.
    pub open spec fn has_id(&self, id: u64) -> bool {
        exists|i: int| 0 <= i < self.nodes@.len() && self.nodes@[i].id == id
    }

    /// The index recorded as touched since the last layout run.
    pub open spec fn in_dirty(&self, j: int) -> bool {
        self.dirty@.contains(j as usize)
    }

    /// Facade invariant: the arena is structurally well-formed, node
    /// identifiers are unique, every recorded edit index is in range,
    /// and any node not recorded as edited still carries the contour
    /// caches of the last layout run.
    pub open spec fn wf(&self) -> bool {
        &&& arena_wf(self.nodes@)
        &&& self.nodes@.len() < usize::MAX - 1
        &&& (forall|i: int, j: int|
            0 <= i < j < self.nodes@.len() ==> self.nodes@[i].id != self.nodes@[j].id)
        &&& (forall|k: int| 0 <= k < self.dirty@.len() ==> (#[trigger] self.dirty@[k] as int) < self.nodes@.len())
        &&& (forall|j: int|
            0 <= j < self.nodes@.len() ==> self.in_dirty(j) || extremes_set(self.nodes@, j))
        &&& (self.layout_type == LayoutType::LayeredTidy) == self.config.is_layered
    }

    /// The configured parent-to-child margin.
    pub open spec fn spec_margin(&self) -> i64 {
        self.config.margin
    }

    /// The configured margin between sibling subtrees.
    pub open spec fn spec_peer_margin(&self) -> i64 {
        self.config.peer_margin
    }

    /// A tree using the per-level tidy layout.
    pub fn with_tidy_layout(parent_child_margin: i64, peer_margin: i64) -> (r: Self)
        ensures
            r.wf(),
            r.arena().len() == 0,
            r.spec_margin() == parent_child_margin,
            r.spec_peer_margin() == peer_margin,
            r.layout_type == LayoutType::Tidy,
    {
        TidyTree {
            nodes: Vec::new(),
            config: LayoutConfig::new(parent_child_margin, peer_margin),
            layout_type: LayoutType::Tidy,
            dirty: Vec::new(),
        }
    }

    /// A tree using the layered tidy layout: one shared row per depth.
    pub fn with_layered_tidy(parent_child_margin: i64, peer_margin: i64) -> (r: Self)
        ensures
            r.wf(),
            r.arena().len() == 0,
            r.spec_margin() == parent_child_margin,
            r.spec_peer_margin() == peer_margin,
            r.layout_type == LayoutType::LayeredTidy,
    {
        TidyTree {
            nodes: Vec::new(),
            config: LayoutConfig::new(parent_child_margin, peer_margin).with_layered(true),
            layout_type: LayoutType::LayeredTidy,
            dirty: Vec::new(),
        }
    }

    /// Switch between the two policies, keeping the tree and margins.
    pub fn change_layout(&mut self, layout_type: LayoutType)
        requires
            old(self).wf(),
        ensures
            final(self).wf(),
            final(self).arena() == old(self).arena(),
            final(self).layout_type == layout_type,
            final(self).spec_margin() == old(self).spec_margin(),
            final(self).spec_peer_margin() == old(self).spec_peer_margin(),
    {
        if layout_type == self.layout_type {
            return ;
        }
        let margin = self.config.margin;
        let peer_margin = self.config.peer_margin;
        match layout_type {
            LayoutType::Tidy => {
                self.config = LayoutConfig::new(margin, peer_margin);
            },
            LayoutType::LayeredTidy => {
                self.config = LayoutConfig::new(margin, peer_margin).with_layered(true);
            },
        }
        self.layout_type = layout_type;
        proof {
            assert forall|j: int|
                0 <= j < self.nodes@.len() implies self.in_dirty(j) || extremes_set(
                self.nodes@,
                j,
            ) by {
                assert(old(self).in_dirty(j) || extremes_set(old(self).nodes@, j));
                if old(self).in_dirty(j) {
                    assert(self.in_dirty(j));
                }
            }
        }
    }

    /// The tree has no nodes yet.
    pub fn is_empty(&self) -> (r: bool)
        ensures
            r == (self.arena().len() == 0),
    {
        self.nodes.len() == 0
    }

    /// The arena index holding `id`, if any.
    pub fn find_index(&self, id: u64) -> (r: Option<usize>)
        ensures
            match r {
                Some(i) => (i as int) < self.arena().len() && self.arena()[i as int].id == id,
                None => !self.has_id(id),
            },
    {
        let n = self.nodes.len();
        let mut i: usize = 0;
        while i < n
            invariant
                i <= n,
                n == self.nodes@.len(),
                forall|j: int| 0 <= j < i ==> self.nodes@[j].id != id,
            decreases n - i,
        {
            if self.nodes[i].id == id {
                return Some(i);
            }
            i = i + 1;
        }
        None
    }

    /// Append a node with the given box size.  On an empty tree the
    /// node becomes the root and `parent_id` is ignored; otherwise
    /// `parent_id` must name an existing node and `id` must be fresh —
    /// a duplicate identifier or an unknown parent is a caller error,
    /// rejected at this call.
    pub fn add_node(&mut self, id: u64, width: i64, height: i64, parent_id: u64)
        requires
            old(self).wf(),
            old(self).arena().len() < usize::MAX - 2,
            old(self).arena().len() > 0 ==> !old(self).has_id(id) && old(self).has_id(parent_id),
        ensures
            final(self).wf(),
            final(self).arena().len() == old(self).arena().len() + 1,
            final(self).arena().last().id == id,
            final(self).arena().last().width == width,
            final(self).arena().last().height == height,
            final(self).has_id(id),
            final(self).spec_margin() == old(self).spec_margin(),
            final(self).spec_peer_margin() == old(self).spec_peer_margin(),
            final(self).layout_type == old(self).layout_type,
            old(self).arena().len() == 0 ==> final(self).arena().last().parent is None,
            old(self).arena().len() > 0 ==> (final(self).arena().last().parent matches Some(p)
                && old(self).arena()[p as int].id == parent_id
                // the new node becomes the parent's youngest, rightmost child
                && final(self).arena().last().order as int == old(self).arena()[
                    p as int].children@.len()
                && final(self).arena()[p as int].children@ == old(self).arena()[
                    p as int].children@.push((old(self).arena().len() as usize))
                && (forall|j: int|
                    0 <= j < old(self).arena().len() && j != p as int
                        ==> #[trigger] final(self).arena()[j] == old(self).arena()[j])),
            forall|j: int|
                0 <= j < old(self).arena().len() ==> {
                    &&& (#[trigger] final(self).arena()[j]).id == old(self).arena()[j].id
                    &&& final(self).arena()[j].width == old(self).arena()[j].width
                    &&& final(self).arena()[j].height == old(self).arena()[j].height
                    &&& final(self).arena()[j].x == old(self).arena()[j].x
                    &&& final(self).arena()[j].y == old(self).arena()[j].y
                    &&& final(self).arena()[j].parent == old(self).arena()[j].parent
                },
    {
        let idx = self.nodes.len();
        let mut node = LayoutNode {
            id,
            width,
            height,
            x: 0,
            y: 0,
            relative_x: 0,
            order: 0,
            depth: 0,
            parent: None,
            children: Vec::new(),
            extreme_left: None,
            extreme_right: None,
            thread_left: None,
            thread_right: None,
            modifier_to_subtree: 0,
            modifier_extreme_left: 0,
            modifier_extreme_right: 0,
            modifier_thread_left: 0,
            modifier_thread_right: 0,
            shift_acceleration: 0,
            shift_change: 0,
        };
        if idx == 0 {
            self.nodes.push(node);
            self.dirty.push(0);
            proof {
                assert forall|j: int| 0 <= j < self.nodes@.len() implies node_wf(
                    self.nodes@,
                    j,
                ) by {
                    assert(self.nodes@[j].children@.len() == 0);
                }
                assert(self.dirty@[self.dirty@.len() - 1] == 0usize);
                assert(self.dirty@.contains(0usize));
            }
            return ;
        }
        let p = match self.find_index(parent_id) {
            Some(p) => p,
            None => 0,  // excluded by the precondition
        };
        let ghost orig = self.nodes@;
        proof {
            assert(node_wf(orig, p as int));
            lemma_depth_le_index(orig, p as int);
        }
        let pdepth = self.nodes[p].depth;
        let porder = self.nodes[p].children.len();
        node.parent = Some(p);
        node.depth = pdepth + 1;
        node.order = porder;
        self.nodes.push(node);
        let ghost mid = self.nodes@;
        let pn = &mut self.nodes[p];
        pn.children.push(idx);
        self.dirty.push(idx);
        proof {
            let now = self.nodes@;
            assert(now.len() == orig.len() + 1);
            assert(now[p as int].children@ == orig[p as int].children@.push(idx));
            assert forall|j: int| 0 <= j < now.len() implies node_wf(now, j) by {
                if j < orig.len() {
                    assert(node_wf(orig, j));
                    if j != p as int {
                        assert(now[j] == orig[j]);
                    }
                    match orig[j].parent {
                        Some(q) => {
                            if q as int != p as int {
                                assert(now[q as int] == orig[q as int]);
                            } else {
                                assert(now[q as int].children@[orig[j].order as int] == orig[
                                    q as int].children@[orig[j].order as int]);
                            }
                        },
                        None => {},
                    }
                    assert forall|k: int| 0 <= k < now[j].children@.len() implies {
                        &&& j < #[trigger] now[j].children@[k] as int
                        &&& (now[j].children@[k] as int) < now.len()
                        &&& now[now[j].children@[k] as int].parent == Some(j as usize)
                        &&& now[now[j].children@[k] as int].order as int == k
                    } by {
                        if j == p as int && k == now[j].children@.len() - 1 {
                            assert(now[j].children@[k] == idx);
                        } else {
                            assert(now[j].children@[k] == orig[j].children@[k]);
                            let c = orig[j].children@[k] as int;
                            assert(now[c].parent == orig[c].parent);
                            assert(now[c].order == orig[c].order);
                        }
                    }
                } else {
                    assert(j == orig.len());
                    assert(now[j].parent == Some(p));
                    assert(now[p as int].children@.last() == idx);
                }
            }
            assert(self.dirty@[self.dirty@.len() - 1] == idx);
            assert(self.dirty@.contains(idx));
            assert forall|k: int|
                0 <= k < self.dirty@.len() implies (#[trigger] self.dirty@[k] as int)
                    < now.len() by {
                if k < old(self).dirty@.len() {
                    assert(self.dirty@[k] == old(self).dirty@[k]);
                }
            }
            assert forall|j: int|
                0 <= j < now.len() implies self.in_dirty(j) || extremes_set(now, j) by {
                if j < orig.len() {
                    if old(self).in_dirty(j) {
                        let k = choose|k: int|
                            0 <= k < old(self).dirty@.len() && old(self).dirty@[k] == j as usize;
                        assert(self.dirty@[k] == j as usize);
                    } else {
                        if j != p as int {
                            assert(now[j] == orig[j]);
                        }
                    }
                } else {
                    assert(self.in_dirty(j));
                }
            }
            assert forall|i: int, j2: int|
                0 <= i < j2 < now.len() implies now[i].id != now[j2].id by {
                if i == p as int {
                    assert(now[i].id == orig[i].id);
                } else if i < orig.len() {
                    assert(now[i] == orig[i]);
                }
                if j2 == orig.len() {
                    assert(!old(self).has_id(id));
                    assert(now[j2].id == id);
                } else if j2 == p as int {
                    assert(now[j2].id == orig[j2].id);
                } else {
                    assert(now[j2] == orig[j2]);
                }
            }
        }
    }

    /// Record a new box size for the node carrying `id`; an unknown
    /// identifier is a caller error, rejected at this call.
    #[verifier::rlimit(50)]
    pub fn set_size(&mut self, id: u64, width: i64, height: i64)
        requires
            old(self).wf(),
            old(self).has_id(id),
        ensures
            final(self).wf(),
            final(self).arena().len() == old(self).arena().len(),
            forall|i: int|
                0 <= i < old(self).arena().len() && old(self).arena()[i].id == id ==> {
                    &&& (#[trigger] final(self).arena()[i]).width == width
                    &&& final(self).arena()[i].height == height
                    &&& forall|j: int|
                        0 <= j < old(self).arena().len() && j != i ==> final(self).arena()[j]
                            == old(self).arena()[j]
                },
            final(self).spec_margin() == old(self).spec_margin(),
            final(self).spec_peer_margin() == old(self).spec_peer_margin(),
            final(self).layout_type == old(self).layout_type,
    {
        let i = match self.find_index(id) {
            Some(i) => i,
            None => 0,  // excluded by the precondition
        };
        let ghost orig = self.nodes@;
        let n = &mut self.nodes[i];
        n.width = width;
        n.height = height;
        self.dirty.push(i);
        proof {
            assert(node_wf(orig, i as int));
            crate::node::lemma_update_links_keeps_wf(orig, i as int, self.nodes@[i as int]);
            assert(self.nodes@ =~= orig.update(i as int, self.nodes@[i as int]));
            assert(self.dirty@[self.dirty@.len() - 1] == i);
            assert(self.dirty@.contains(i));
            assert(self.nodes@[i as int].width == width);
            assert(self.nodes@[i as int].height == height);
            assert forall|i2: int|
                0 <= i2 < orig.len() && orig[i2].id == id implies {
                &&& self.nodes@[i2].width == width
                &&& self.nodes@[i2].height == height
                &&& forall|j: int| 0 <= j < orig.len() && j != i2 ==> self.nodes@[j] == orig[j]
            } by {
                assert(i2 == i as int);
            }
            assert forall|j: int|
                0 <= j < self.nodes@.len() implies self.in_dirty(j) || extremes_set(
                self.nodes@,
                j,
            ) by {
                if old(self).in_dirty(j) {
                    let k = choose|k: int|
                        0 <= k < old(self).dirty@.len() && old(self).dirty@[k] == j as usize;
                    assert(self.dirty@[k] == j as usize);
                } else if j != i as int {
                    assert(self.nodes@[j] == orig[j]);
                }
            }
        }
    }

    /// Add a batch of nodes, one call of `add_node` per entry, in
    /// order.  Exactly as for `add_node`, a duplicate identifier or a
    /// parent that is neither already present nor added by an earlier
    /// entry is a caller error, rejected at this call; every entry of a
    /// valid batch is added, identifiers and sizes as given.
    #[verifier::loop_isolation(false)]
    pub fn data(&mut self, id: &Vec<u64>, width: &Vec<i64>, height: &Vec<i64>, parent_id: &Vec<u64>)
        requires
            old(self).wf(),
            id@.len() == width@.len(),
            id@.len() == height@.len(),
            id@.len() == parent_id@.len(),
            old(self).arena().len() + id@.len() < usize::MAX - 2,
            forall|k1: int, k2: int| 0 <= k1 < k2 < id@.len() ==> id@[k1] != id@[k2],
            forall|k: int| 0 <= k < id@.len() ==> !old(self).has_id(#[trigger] id@[k]),
            forall|k: int|
                0 <= k < id@.len() && (old(self).arena().len() > 0 || k > 0) ==> old(self).has_id(
                    #[trigger] parent_id@[k],
                ) || (exists|k2: int| 0 <= k2 < k && id@[k2] == parent_id@[k]),
        ensures
            final(self).wf(),
            final(self).arena().len() == old(self).arena().len() + id@.len(),
            forall|k: int|
                0 <= k < id@.len() ==> {
                    &&& (#[trigger] final(self).arena()[old(self).arena().len() + k]).id == id@[k]
                    &&& final(self).arena()[old(self).arena().len() + k].width == width@[k]
                    &&& final(self).arena()[old(self).arena().len() + k].height == height@[k]
                },
            forall|k: int|
                0 <= k < id@.len() && (old(self).arena().len() > 0 || k > 0) ==> {
                    let nd = #[trigger] final(self).arena()[old(self).arena().len() + k];
                    &&& nd.parent is Some
                    &&& final(self).arena()[nd.parent->Some_0 as int].id == parent_id@[k]
                },
            old(self).arena().len() == 0 && id@.len() > 0 ==> final(self).arena()[0].parent
                is None,
            forall|j: int|
                0 <= j < old(self).arena().len() ==> (#[trigger] final(self).arena()[j]).id == old(
                    self,
                ).arena()[j].id,
            final(self).spec_margin() == old(self).spec_margin(),
            final(self).spec_peer_margin() == old(self).spec_peer_margin(),
            final(self).layout_type == old(self).layout_type,
    {
        let ghost len0 = self.nodes@.len();
        let n = id.len();
        let mut k: usize = 0;
        while k < n
            invariant
                self.wf(),
                k <= n,
                n == id@.len(),
                n == width@.len(),
                n == height@.len(),
                n == parent_id@.len(),
                len0 == old(self).arena().len(),
                self.nodes@.len() == len0 + k,
                forall|j: int|
                    0 <= j < len0 ==> (#[trigger] self.nodes@[j]).id == old(self).nodes@[j].id,
                forall|k2: int|
                    0 <= k2 < k ==> {
                        &&& (#[trigger] self.nodes@[len0 + k2]).id == id@[k2]
                        &&& self.nodes@[len0 + k2].width == width@[k2]
                        &&& self.nodes@[len0 + k2].height == height@[k2]
                    },
                forall|k2: int|
                    0 <= k2 < k && (len0 > 0 || k2 > 0) ==> {
                        let nd = #[trigger] self.nodes@[len0 + k2];
                        &&& nd.parent is Some
                        &&& self.nodes@[nd.parent->Some_0 as int].id == parent_id@[k2]
                    },
                len0 == 0 && k > 0 ==> self.nodes@[0].parent is None,
                self.spec_margin() == old(self).spec_margin(),
                self.spec_peer_margin() == old(self).spec_peer_margin(),
                self.layout_type == old(self).layout_type,
            decreases n - k,
        {
            proof {
                if self.nodes@.len() > 0 {
                    assert(!old(self).has_id(id@[k as int]));
                    assert(!self.has_id(id@[k as int])) by {
                        if self.has_id(id@[k as int]) {
                            let w = choose|w: int|
                                0 <= w < self.nodes@.len() && self.nodes@[w].id == id@[k as int];
                            if w < len0 {
                                assert(self.nodes@[w].id == old(self).nodes@[w].id);
                                assert(old(self).has_id(id@[k as int]));
                            } else {
                                let k2 = w - len0;
                                assert(self.nodes@[len0 + k2].id == id@[k2]);
                                assert(id@[k2] != id@[k as int]);
                            }
                        }
                    }
                    assert(len0 > 0 || k > 0);
                    assert(old(self).has_id(parent_id@[k as int]) || (exists|k2: int|
                        0 <= k2 < k as int && id@[k2] == parent_id@[k as int]));
                    assert(self.has_id(parent_id@[k as int])) by {
                        if old(self).has_id(parent_id@[k as int]) {
                            let w = choose|w: int|
                                0 <= w < len0 && old(self).nodes@[w].id == parent_id@[k as int];
                            assert(self.nodes@[w].id == parent_id@[k as int]);
                        } else {
                            let k2 = choose|k2: int|
                                0 <= k2 < k as int && id@[k2] == parent_id@[k as int];
                            assert(self.nodes@[len0 + k2].id == parent_id@[k as int]);
                        }
                    }
                }
            }
            let ghost pre = self.nodes@;
            self.add_node(id[k], width[k], height[k], parent_id[k]);
            proof {
                assert forall|j: int|
                    0 <= j < len0 implies (#[trigger] self.nodes@[j]).id == old(
                    self,
                ).nodes@[j].id by {
                    assert(self.nodes@[j].id == pre[j].id);
                }
                assert forall|k2: int|
                    0 <= k2 < k + 1 implies {
                        &&& (#[trigger] self.nodes@[len0 + k2]).id == id@[k2]
                        &&& self.nodes@[len0 + k2].width == width@[k2]
                        &&& self.nodes@[len0 + k2].height == height@[k2]
                    } by {
                    if k2 < k {
                        assert(self.nodes@[len0 + k2].id == pre[len0 + k2].id);
                        assert(self.nodes@[len0 + k2].width == pre[len0 + k2].width);
                        assert(self.nodes@[len0 + k2].height == pre[len0 + k2].height);
                    } else {
                        assert(self.nodes@.last().id == id@[k2]);
                    }
                }
                assert forall|k2: int|
                    0 <= k2 < k + 1 && (len0 > 0 || k2 > 0) implies {
                        let nd = #[trigger] self.nodes@[len0 + k2];
                        &&& nd.parent is Some
                        &&& self.nodes@[nd.parent->Some_0 as int].id == parent_id@[k2]
                    } by {
                    if k2 < k {
                        let nd = pre[len0 + k2];
                        assert(node_wf(pre, len0 + k2));
                        assert(self.nodes@[len0 + k2].parent == nd.parent);
                        let p = nd.parent->Some_0 as int;
                        assert(0 <= p < pre.len());
                        assert(pre[p].id == parent_id@[k2]);
                        assert(self.nodes@[p].id == pre[p].id);
                    } else {
                        let nd = self.nodes@.last();
                        assert(nd.parent is Some);
                        assert(node_wf(self.nodes@, len0 + k2));
                        let p = nd.parent->Some_0 as int;
                        assert(0 <= p < pre.len());
                        assert(pre[p].id == parent_id@[k2]);
                        assert(self.nodes@[p].id == pre[p].id);
                    }
                }
                if len0 == 0 && k + 1 > 0 {
                    if k == 0 {
                        assert(self.nodes@.last().parent is None);
                    } else {
                        assert(self.nodes@[0].parent == pre[0].parent);
                    }
                }
            }
            k = k + 1;
        }
    }

    /// Lay out the whole tree from scratch.  On an empty tree this is a
    /// no-op.  Afterwards the vertical policy holds everywhere — in
    /// per-level mode every non-root hangs one margin below its
    /// parent's bottom edge and the root sits at 0; in layered mode
    /// every node sits on the shared baseline of its depth — and every
    /// contour cache is populated.
    pub fn layout(&mut self)
        requires
            old(self).wf(),
        ensures
            final(self).wf(),
            final(self).arena().len() == old(self).arena().len(),
            same_shape(old(self).arena(), final(self).arena()),
            final(self).spec_margin() == old(self).spec_margin(),
            final(self).spec_peer_margin() == old(self).spec_peer_margin(),
            final(self).layout_type == old(self).layout_type,
            old(self).arena().len() == 0 ==> final(self).arena() == old(self).arena(),
            old(self).arena().len() > 0 && old(self).layout_type == LayoutType::Tidy
                ==> per_level_y_ok(final(self).arena(), old(self).spec_margin()),
            old(self).arena().len() > 0 && old(self).layout_type == LayoutType::LayeredTidy
                ==> forall|i: int, j: int|
                    0 <= i < final(self).arena().len() && 0 <= j < final(self).arena().len()
                        && final(self).arena()[i].depth == final(self).arena()[j].depth ==> (
                    #[trigger] final(self).arena()[i].y) == #[trigger] final(self).arena()[j].y,
            old(self).arena().len() > 0 ==> x_resolved(final(self).arena(), 0, 0),
            old(self).arena().len() > 0 ==> final(self).arena() =~= layout_spec(
                old(self).arena(),
                old(self).spec_margin(),
                old(self).spec_peer_margin(),
                old(self).layout_type == LayoutType::LayeredTidy,
            ),
            kept_children(old(self).arena(), final(self).arena()),
            old(self).arena().len() > 0 && old(self).layout_type == LayoutType::LayeredTidy
                ==> forall|d: int|
                    0 <= d < final(self).config.depth_to_y@.len()
                        ==> #[trigger] final(self).config.depth_to_y@[d] == dty_spec(
                        final(self).arena(),
                        old(self).spec_margin(),
                        d,
                    ),
            final(self).dirty@.len() == 0,
    {
        if self.nodes.len() == 0 {
            self.dirty = Vec::new();
            return ;
        }
        let ghost orig = self.nodes@;
        self.config.layout(&mut self.nodes);
        self.dirty = Vec::new();
        proof {
            assert forall|i: int, j: int|
                0 <= i < j < self.nodes@.len() implies self.nodes@[i].id != self.nodes@[j].id by {
                assert(same_shape_at(orig, self.nodes@, i));
                assert(same_shape_at(orig, self.nodes@, j));
            }
            assert forall|j: int|
                0 <= j < self.nodes@.len() implies self.in_dirty(j) || extremes_set(
                self.nodes@,
                j,
            ) by {
                assert(extremes_set(self.nodes@, j));
            }
            if self.layout_type == LayoutType::LayeredTidy {
                assert forall|i: int, j: int|
                    0 <= i < self.arena().len() && 0 <= j < self.arena().len()
                        && self.arena()[i].depth == self.arena()[j].depth implies (
                    #[trigger] self.arena()[i].y) == #[trigger] self.arena()[j].y by {
                    assert(self.arena()[i].y == self.config.depth_to_y@[self.arena()[i].depth as int]);
                    assert(self.arena()[j].y == self.config.depth_to_y@[self.arena()[j].depth as int]);
                }
            }
        }
    }

    /// Recompute coordinates after local edits.  `changed_ids` names
    /// the edited nodes; edits recorded by this facade are always
    /// included, so a forgotten identifier cannot leave a stale cache
    /// in use.  Unknown identifiers are a caller error, rejected at
    /// this call.  In layered mode this falls back to a full layout.
    /// The vertical policy holds everywhere afterwards, exactly as
    /// after `layout`.
    pub fn partial_layout(&mut self, changed_ids: &Vec<u64>)
        requires
            old(self).wf(),
            forall|k: int|
                0 <= k < changed_ids@.len() ==> old(self).has_id(#[trigger] changed_ids@[k]),
        ensures
            final(self).wf(),
            final(self).arena().len() == old(self).arena().len(),
            same_shape(old(self).arena(), final(self).arena()),
            final(self).spec_margin() == old(self).spec_margin(),
            final(self).spec_peer_margin() == old(self).spec_peer_margin(),
            final(self).layout_type == old(self).layout_type,
            old(self).arena().len() == 0 ==> final(self).arena() == old(self).arena(),
            old(self).arena().len() > 0 && old(self).layout_type == LayoutType::Tidy
                ==> per_level_y_ok(final(self).arena(), old(self).spec_margin()),
            old(self).arena().len() > 0 && old(self).layout_type == LayoutType::LayeredTidy
                ==> forall|i: int, j: int|
                    0 <= i < final(self).arena().len() && 0 <= j < final(self).arena().len()
                        && final(self).arena()[i].depth == final(self).arena()[j].depth ==> (
                    #[trigger] final(self).arena()[i].y) == #[trigger] final(self).arena()[j].y,
            old(self).arena().len() > 0 && old(self).layout_type == LayoutType::LayeredTidy
                ==> final(self).arena() =~= layout_spec(
                    old(self).arena(),
                    old(self).spec_margin(),
                    old(self).spec_peer_margin(),
                    true,
                ),
            old(self).arena().len() > 0 && old(self).layout_type == LayoutType::Tidy
                ==> final(self).arena() =~= partial_layout_spec(
                    old(self).arena(),
                    old(self).dirty@ + indices_of(old(self).arena(), changed_ids@),
                    old(self).spec_margin(),
                    old(self).spec_peer_margin(),
                ),
            final(self).dirty@.len() == 0,
    {
        if self.nodes.len() == 0 {
            self.dirty = Vec::new();
            return ;
        }
        let mut changed: Vec<usize> = Vec::new();
        let mut k: usize = 0;
        while k < self.dirty.len()
            invariant
                self.wf(),
                self.nodes@ == old(self).nodes@,
                self.dirty@ == old(self).dirty@,
                k <= self.dirty@.len(),
                changed@.len() == k,
                forall|k2: int| 0 <= k2 < k ==> changed@[k2] == self.dirty@[k2],
                forall|k2: int|
                    0 <= k2 < changed@.len() ==> (#[trigger] changed@[k2] as int)
                        < self.nodes@.len(),
            decreases self.dirty@.len() - k,
        {
            changed.push(self.dirty[k]);
            k = k + 1;
        }
        proof {
            assert forall|k3: int|
                0 <= k3 < self.dirty@.len() implies changed@.contains(
                #[trigger] self.dirty@[k3],
            ) by {
                assert(changed@[k3] == self.dirty@[k3]);
            }
        }
        let m = changed_ids.len();
        let mut k2: usize = 0;
        while k2 < m
            invariant
                self.wf(),
                self.nodes@ == old(self).nodes@,
                self.dirty@ == old(self).dirty@,
                k2 <= m,
                m == changed_ids@.len(),
                forall|k3: int| 0 <= k3 < self.dirty@.len() ==> changed@.contains(
                    #[trigger] self.dirty@[k3],
                ),
                forall|k3: int|
                    0 <= k3 < changed@.len() ==> (#[trigger] changed@[k3] as int)
                        < self.nodes@.len(),
                changed@ =~= old(self).dirty@ + indices_of(
                    old(self).nodes@,
                    changed_ids@,
                ).subrange(0, k2 as int),
                forall|k3: int|
                    0 <= k3 < m ==> old(self).has_id(#[trigger] changed_ids@[k3]),
            decreases m - k2,
        {
            let ghost ch_pre = changed@;
            match self.find_index(changed_ids[k2]) {
                Some(i) => {
                    changed.push(i);
                    proof {
                        // with unique identifiers the found index is the one
                        // the specification names
                        let idg = changed_ids@[k2 as int];
                        assert(exists|w2: int|
                            0 <= w2 < self.nodes@.len() && self.nodes@[w2].id == idg) by {
                            assert(self.nodes@[i as int].id == idg);
                        }
                        let w = idx_of_id(self.nodes@, idg);
                        assert(0 <= w < self.nodes@.len() && self.nodes@[w].id == idg);
                        assert(w == i as int);
                        assert(indices_of(old(self).nodes@, changed_ids@)[k2 as int] == i);
                        assert(changed@ =~= old(self).dirty@ + indices_of(
                            old(self).nodes@,
                            changed_ids@,
                        ).subrange(0, k2 as int + 1));
                    }
                },
                None => {
                    proof {
                        // excluded: every given identifier is present
                        assert(old(self).has_id(changed_ids@[k2 as int]));
                        assert(false);
                    }
                },
            }
            proof {
                assert forall|k3: int|
                    0 <= k3 < self.dirty@.len() implies changed@.contains(
                    #[trigger] self.dirty@[k3],
                ) by {
                    let w = choose|w: int|
                        0 <= w < ch_pre.len() && ch_pre[w] == self.dirty@[k3];
                    assert(changed@[w] == self.dirty@[k3]);
                }
            }
            k2 = k2 + 1;
        }
        proof {
            assert(changed@ =~= old(self).dirty@ + indices_of(old(self).nodes@, changed_ids@));
        }
        proof {
            assert forall|j: int|
                0 <= j < self.nodes@.len() && !changed@.contains(j as usize)
                    implies extremes_set(self.nodes@, j) by {
                if self.in_dirty(j) {
                    let k3 = choose|k3: int|
                        0 <= k3 < self.dirty@.len() && self.dirty@[k3] == j as usize;
                    assert(changed@.contains(self.dirty@[k3]));
                }
            }
        }
        let ghost orig2 = self.nodes@;
        self.config.partial_layout(&mut self.nodes, &changed);
        self.dirty = Vec::new();
        proof {
            assert forall|i: int, j: int|
                0 <= i < j < self.nodes@.len() implies self.nodes@[i].id != self.nodes@[j].id by {
                assert(same_shape_at(orig2, self.nodes@, i));
                assert(same_shape_at(orig2, self.nodes@, j));
            }
            assert forall|j: int|
                0 <= j < self.nodes@.len() implies self.in_dirty(j) || extremes_set(
                self.nodes@,
                j,
            ) by {
                assert(extremes_set(self.nodes@, j));
            }
            if self.layout_type == LayoutType::LayeredTidy {
                assert forall|i: int, j: int|
                    0 <= i < self.arena().len() && 0 <= j < self.arena().len()
                        && self.arena()[i].depth == self.arena()[j].depth implies (
                    #[trigger] self.arena()[i].y) == #[trigger] self.arena()[j].y by {
                    assert(self.arena()[i].y == self.config.depth_to_y@[self.arena()[i].depth as int]);
                    assert(self.arena()[j].y == self.config.depth_to_y@[self.arena()[j].depth as int]);
                }
            }
        }
    }

    /// The identifier and absolute position of every node, in arena
    /// order.
    pub fn get_pos(&self) -> (r: Vec<(u64, i64, i64)>)
        ensures
            r@.len() == self.arena().len(),
            forall|i: int|
                0 <= i < r@.len() ==> #[trigger] r@[i] == (
                    self.arena()[i].id,
                    self.arena()[i].x,
                    self.arena()[i].y,
                ),
    {
        let n = self.nodes.len();
        let mut r: Vec<(u64, i64, i64)> = Vec::new();
        let mut i: usize = 0;
        while i < n
            invariant
                i <= n,
                n == self.nodes@.len(),
                r@.len() == i,
                forall|j: int|
                    0 <= j < i ==> #[trigger] r@[j] == (
                        self.nodes@[j].id,
                        self.nodes@[j].x,
                        self.nodes@[j].y,
                    ),
            decreases n - i,
        {
            r.push((self.nodes[i].id, self.nodes[i].x, self.nodes[i].y));
            i = i + 1;
        }
        r
    }
}

} // verus!
