//! A vector-backed tree caching a caller's tree structure.
//!
//! Nodes live in one arena; the root, when present, is index 0, and
//! every node is pushed after its parent.  `order` is a node's position
//! among its siblings and `depth` its distance from the root.

use vstd::prelude::*;

verus! {

/// One cached node with its payload.
pub struct TreeNode<D> {
    pub data: D,
    pub order: usize,
    pub depth: usize,
    pub parent: Option<usize>,
    pub children: Vec<usize>,
}

impl<D> TreeNode<D> {
    /// The node has no children.
    pub fn is_leaf(&self) -> (r: bool)
        ensures
            r == (self.children@.len() == 0),
    {
        self.children.len() == 0
    }

    /// The node has no parent.
    pub fn is_root(&self) -> (r: bool)
        ensures
            r == (self.parent is None),
    {
        self.parent.is_none()
    }
}

/// The arena holding a cached tree.
pub struct TreeLayout<D> {
    pub arena: Vec<TreeNode<D>>,
}

/// Structural well-formedness of one slot, as in the layout arena: the
/// root is exactly index 0, parents precede children and the links
/// agree in both directions.
pub open spec fn tree_node_wf<D>(s: Seq<TreeNode<D>>, i: int) -> bool {
    &&& ((i == 0) <==> s[i].parent is None)
    &&& (match s[i].parent {
        Some(p) => {
            &&& (p as int) < i
            &&& s[i].depth == s[p as int].depth + 1
            &&& (s[i].order as int) < s[p as int].children@.len()
            &&& s[p as int].children@[s[i].order as int] == i
        },
        None => s[i].depth == 0 && s[i].order == 0,
    })
    &&& (forall|k: int|
        0 <= k < s[i].children@.len() ==> {
            &&& i < #[trigger] s[i].children@[k] as int
            &&& (s[i].children@[k] as int) < s.len()
            &&& s[s[i].children@[k] as int].parent == Some(i as usize)
            &&& s[s[i].children@[k] as int].order as int == k
        })
}

/// A breadth-first worklist run to completion: each entry in turn
/// appends its children, until the cursor catches up or the fuel — one
/// unit per expanded node — runs out.
pub open spec fn bfs_expand<D>(s: Seq<TreeNode<D>>, q: Seq<usize>, index: int, fuel: int) -> Seq<
    usize,
>
    decreases fuel,
{
    if fuel <= 0 || index < 0 || index >= q.len() {
        q
    } else if q[index] as int >= s.len() {
        q
    } else {
        bfs_expand(s, q + s[q[index] as int].children@, index + 1, fuel - 1)
    }
}

/// A depth-first stack walk: pop a node, push its children, emit the
/// node; the emitted list reversed is the post-order.
pub open spec fn post_expand<D>(
    s: Seq<TreeNode<D>>,
    stack: Seq<usize>,
    out: Seq<usize>,
    fuel: int,
) -> Seq<usize>
    decreases fuel,
{
    if fuel <= 0 || stack.len() == 0 {
        out
    } else {
        let cur = stack.last();
        if cur as int >= s.len() {
            out
        } else {
            post_expand(
                s,
                stack.drop_last() + s[cur as int].children@,
                out.push(cur),
                fuel - 1,
            )
        }
    }
}

/// The sequence read back to front.
pub open spec fn reversed(q: Seq<usize>) -> Seq<usize> {
    Seq::new(q.len(), |i: int| q[q.len() - 1 - i])
}

/// Structural well-formedness of the whole arena.
pub open spec fn tree_wf<D>(s: Seq<TreeNode<D>>) -> bool {
    forall|i: int| 0 <= i < s.len() ==> tree_node_wf(s, i)
}

impl<D> TreeLayout<D> {
    /// An empty arena.
    pub fn new() -> (r: Self)
        ensures
            tree_wf(r.arena@),
            r.arena@.len() == 0,
    {
        TreeLayout { arena: Vec::new() }
    }

    /// Append a node.  On an empty arena it becomes the root and
    /// `parent` is ignored; otherwise `parent` must be a valid index.
    /// Returns the new node's index.
    pub fn push_node(&mut self, data: D, parent: Option<usize>) -> (r: usize)
        requires
            tree_wf(old(self).arena@),
            old(self).arena@.len() < usize::MAX - 1,
            old(self).arena@.len() > 0 ==> (parent matches Some(p) && (p as int) < old(
                self,
            ).arena@.len()),
        ensures
            tree_wf(final(self).arena@),
            final(self).arena@.len() == old(self).arena@.len() + 1,
            r as int == old(self).arena@.len(),
            final(self).arena@[r as int].data == data,
            final(self).arena@[r as int].children@.len() == 0,
            old(self).arena@.len() == 0 ==> final(self).arena@[r as int].parent is None
                && final(self).arena@[r as int].depth == 0 && final(self).arena@[r as int].order
                == 0,
            old(self).arena@.len() > 0 ==> {
                let p = parent->Some_0 as int;
                &&& final(self).arena@[r as int].parent == parent
                &&& final(self).arena@[r as int].depth == old(self).arena@[p].depth + 1
                &&& final(self).arena@[r as int].order as int == old(self).arena@[p].children@.len()
                &&& final(self).arena@[p].children@ == old(self).arena@[p].children@.push(r)
                &&& final(self).arena@[p].data == old(self).arena@[p].data
                &&& final(self).arena@[p].parent == old(self).arena@[p].parent
                &&& final(self).arena@[p].order == old(self).arena@[p].order
                &&& final(self).arena@[p].depth == old(self).arena@[p].depth
                &&& forall|j: int|
                    0 <= j < old(self).arena@.len() && j != p ==> final(self).arena@[j] == old(
                        self,
                    ).arena@[j]
            },
    {
        let idx = self.arena.len();
        if idx == 0 {
            self.arena.push(
                TreeNode { data, order: 0, depth: 0, parent: None, children: Vec::new() },
            );
            proof {
                assert forall|j: int| 0 <= j < self.arena@.len() implies tree_node_wf(
                    self.arena@,
                    j,
                ) by {
                    assert(self.arena@[j].children@.len() == 0);
                }
            }
            return idx;
        }
        let p = match parent {
            Some(p) => p,
            None => 0,  // excluded by the precondition
        };
        let ghost orig = self.arena@;
        proof {
            assert(tree_node_wf(orig, p as int));
            lemma_tree_depth_le_index(orig, p as int);
        }
        let pdepth = self.arena[p].depth;
        let porder = self.arena[p].children.len();
        self.arena.push(
            TreeNode {
                data,
                order: porder,
                depth: pdepth + 1,
                parent: Some(p),
                children: Vec::new(),
            },
        );
        let pn = &mut self.arena[p];
        pn.children.push(idx);
        proof {
            let now = self.arena@;
            assert(now[p as int].children@ == orig[p as int].children@.push(idx));
            assert forall|j: int| 0 <= j < now.len() implies tree_node_wf(now, j) by {
                if j < orig.len() {
                    assert(tree_node_wf(orig, j));
                    if j != p as int {
                        assert(now[j] == orig[j]);
                    }
                    match orig[j].parent {
                        Some(q) => {
                            if q as int != p as int {
                                assert(now[q as int] == orig[q as int]);
                            } else {
                                assert(now[q as int].children@[orig[j].order as int] == orig[
                                    q as int].children@[orig[j].order as int]);
                            }
                        },
                        None => {},
                    }
                    assert forall|k: int| 0 <= k < now[j].children@.len() implies {
                        &&& j < #[trigger] now[j].children@[k] as int
                        &&& (now[j].children@[k] as int) < now.len()
                        &&& now[now[j].children@[k] as int].parent == Some(j as usize)
                        &&& now[now[j].children@[k] as int].order as int == k
                    } by {
                        if j == p as int && k == now[j].children@.len() - 1 {
                            assert(now[j].children@[k] == idx);
                        } else {
                            assert(now[j].children@[k] == orig[j].children@[k]);
                            let c = orig[j].children@[k] as int;
                            assert(now[c].parent == orig[c].parent);
                            assert(now[c].order == orig[c].order);
                        }
                    }
                } else {
                    assert(now[j].parent == Some(p));
                    assert(now[p as int].children@.last() == idx);
                }
            }
        }
        idx
    }

    /// The number of cached nodes.
    pub fn len(&self) -> (r: usize)
        ensures
            r == self.arena@.len(),
    {
        self.arena.len()
    }

    /// The root's index: 0 on a non-empty arena.
    pub fn root(&self) -> (r: Option<usize>)
        ensures
            r == (if self.arena@.len() == 0 {
                Option::<usize>::None
            } else {
                Option::<usize>::Some(0)
            }),
    {
        if self.arena.len() == 0 {
            None
        } else {
            Some(0)
        }
    }

    /// The nodes of `node`'s subtree in breadth-first order, starting
    /// at `node` itself: the worklist after expanding each entry in
    /// turn by its children, exactly as `bfs_expand` describes.
    pub fn breadth_first(&self, node: usize) -> (r: Vec<usize>)
        requires
            tree_wf(self.arena@),
            (node as int) < self.arena@.len(),
        ensures
            r@ == bfs_expand(
                self.arena@,
                seq![node],
                0,
                self.arena@.len() as int,
            ),
            r@.len() >= 1,
            r@[0] == node,
            forall|k: int| 0 <= k < r@.len() ==> (#[trigger] r@[k] as int) < self.arena@.len(),
    {
        let mut order: Vec<usize> = Vec::new();
        order.push(node);
        let mut index: usize = 0;
        let mut fuel = self.arena.len();
        let ghost fuel0 = fuel as int;
        while index < order.len() && fuel > 0
            invariant
                tree_wf(self.arena@),
                index <= order@.len(),
                order@.len() >= 1,
                order@[0] == node,
                forall|k: int|
                    0 <= k < order@.len() ==> (#[trigger] order@[k] as int) < self.arena@.len(),
                bfs_expand(self.arena@, order@, index as int, fuel as int) == bfs_expand(
                    self.arena@,
                    seq![node],
                    0,
                    fuel0,
                ),
            decreases fuel,
        {
            fuel = fuel - 1;
            let ghost pre = order@;
            let ghost fuel_pre = fuel as int + 1;
            let cur = order[index];
            proof {
                assert(tree_node_wf(self.arena@, cur as int));
            }
            let cs = self.arena[cur].children.len();
            let mut k: usize = 0;
            while k < cs
                invariant
                    tree_wf(self.arena@),
                    (cur as int) < self.arena@.len(),
                    cs == self.arena@[cur as int].children@.len(),
                    k <= cs,
                    order@.len() >= 1,
                    index < order@.len(),
                    order@[0] == node,
                    order@ == pre + self.arena@[cur as int].children@.take(k as int),
                    forall|k2: int|
                        0 <= k2 < order@.len() ==> (#[trigger] order@[k2] as int)
                            < self.arena@.len(),
                decreases cs - k,
            {
                proof {
                    assert(tree_node_wf(self.arena@, cur as int));
                }
                let c = self.arena[cur].children[k];
                order.push(c);
                proof {
                    assert(order@ =~= pre + self.arena@[cur as int].children@.take(k + 1));
                }
                k = k + 1;
            }
            index = index + 1;
            proof {
                assert(order@ =~= pre + self.arena@[pre[index - 1] as int].children@);
                assert(bfs_expand(self.arena@, pre, index - 1, fuel_pre) == bfs_expand(
                    self.arena@,
                    order@,
                    index as int,
                    fuel_pre - 1,
                ));
            }
        }
        proof {
            assert(bfs_expand(self.arena@, order@, index as int, fuel as int) == order@);
        }
        order
    }

    /// The nodes of `node`'s subtree in post-order: every node after
    /// all of its descendants; the reversal of the stack walk that
    /// `post_expand` describes.
    pub fn post_order(&self, node: usize) -> (r: Vec<usize>)
        requires
            tree_wf(self.arena@),
            (node as int) < self.arena@.len(),
        ensures
            r@ == reversed(
                post_expand(
                    self.arena@,
                    seq![node],
                    Seq::empty(),
                    self.arena@.len() as int,
                ),
            ),
            forall|k: int| 0 <= k < r@.len() ==> (#[trigger] r@[k] as int) < self.arena@.len(),
    {
        let mut stack: Vec<usize> = Vec::new();
        stack.push(node);
        let mut out: Vec<usize> = Vec::new();
        let mut fuel = self.arena.len();
        let ghost fuel0 = fuel as int;
        while stack.len() > 0 && fuel > 0
            invariant
                tree_wf(self.arena@),
                forall|k: int|
                    0 <= k < stack@.len() ==> (#[trigger] stack@[k] as int) < self.arena@.len(),
                forall|k: int|
                    0 <= k < out@.len() ==> (#[trigger] out@[k] as int) < self.arena@.len(),
                post_expand(self.arena@, stack@, out@, fuel as int) == post_expand(
                    self.arena@,
                    seq![node],
                    Seq::empty(),
                    fuel0,
                ),
            decreases fuel,
        {
            fuel = fuel - 1;
            let ghost stack_pre = stack@;
            let ghost out_pre = out@;
            let ghost fuel_pre = fuel as int + 1;
            let cur = match stack.pop() {
                Some(c) => c,
                None => 0,  // excluded by the loop condition
            };
            proof {
                assert(tree_node_wf(self.arena@, cur as int));
            }
            let cs = self.arena[cur].children.len();
            let mut k: usize = 0;
            while k < cs
                invariant
                    tree_wf(self.arena@),
                    (cur as int) < self.arena@.len(),
                    cs == self.arena@[cur as int].children@.len(),
                    k <= cs,
                    stack@ == stack_pre.drop_last() + self.arena@[cur as int].children@.take(
                        k as int,
                    ),
                    forall|k2: int|
                        0 <= k2 < stack@.len() ==> (#[trigger] stack@[k2] as int)
                            < self.arena@.len(),
                decreases cs - k,
            {
                proof {
                    assert(tree_node_wf(self.arena@, cur as int));
                }
                let c = self.arena[cur].children[k];
                stack.push(c);
                proof {
                    assert(stack@ =~= stack_pre.drop_last() + self.arena@[
                        cur as int].children@.take(k + 1));
                }
                k = k + 1;
            }
            out.push(cur);
            proof {
                assert(stack@ =~= stack_pre.drop_last() + self.arena@[cur as int].children@);
                assert(out@ =~= out_pre.push(cur));
                assert(post_expand(self.arena@, stack_pre, out_pre, fuel_pre) == post_expand(
                    self.arena@,
                    stack@,
                    out@,
                    fuel_pre - 1,
                ));
            }
        }
        proof {
            assert(post_expand(self.arena@, stack@, out@, fuel as int) == out@);
        }
        let mut rev: Vec<usize> = Vec::new();
        let mut k: usize = out.len();
        while k > 0
            invariant
                k <= out@.len(),
                rev@.len() == out@.len() - k,
                forall|k2: int|
                    0 <= k2 < rev@.len() ==> #[trigger] rev@[k2] == out@[out@.len() - 1 - k2],
                forall|k2: int|
                    0 <= k2 < out@.len() ==> (#[trigger] out@[k2] as int) < self.arena@.len(),
            decreases k,
        {
            k = k - 1;
            rev.push(out[k]);
        }
        proof {
            assert(rev@ =~= reversed(out@));
        }
        rev
    }

    /// The indices of the siblings to the left of `node`, left to
    /// right.
    pub fn left_siblings(&self, node: usize) -> (r: Vec<usize>)
        requires
            tree_wf(self.arena@),
            (node as int) < self.arena@.len(),
        ensures
            match self.arena@[node as int].parent {
                Some(p) => r@ == self.arena@[p as int].children@.take(
                    self.arena@[node as int].order as int,
                ),
                None => r@.len() == 0,
            },
    {
        proof {
            assert(tree_node_wf(self.arena@, node as int));
        }
        let mut r: Vec<usize> = Vec::new();
        match self.arena[node].parent {
            Some(p) => {
                let order = self.arena[node].order;
                let mut k: usize = 0;
                while k < order
                    invariant
                        tree_wf(self.arena@),
                        (p as int) < self.arena@.len(),
                        k <= order,
                        order <= self.arena@[p as int].children@.len(),
                        r@ == self.arena@[p as int].children@.take(k as int),
                    decreases order - k,
                {
                    proof {
                        assert(tree_node_wf(self.arena@, p as int));
                    }
                    r.push(self.arena[p].children[k]);
                    proof {
                        assert(r@ =~= self.arena@[p as int].children@.take(k + 1));
                    }
                    k = k + 1;
                }
            },
            None => {},
        }
        r
    }

    /// The siblings strictly between `left` and `right`, which must be
    /// siblings with `left` before `right`; two roots yield nothing.
    pub fn siblings_between(&self, left: usize, right: usize) -> (r: Vec<usize>)
        requires
            tree_wf(self.arena@),
            (left as int) < self.arena@.len(),
            (right as int) < self.arena@.len(),
            self.arena@[left as int].parent == self.arena@[right as int].parent,
            self.arena@[left as int].parent is Some ==> self.arena@[left as int].order
                < self.arena@[right as int].order,
        ensures
            match self.arena@[left as int].parent {
                Some(p) => r@ == self.arena@[p as int].children@.subrange(
                    self.arena@[left as int].order + 1,
                    self.arena@[right as int].order as int,
                ),
                None => r@.len() == 0,
            },
    {
        proof {
            assert(tree_node_wf(self.arena@, left as int));
            assert(tree_node_wf(self.arena@, right as int));
        }
        let mut r: Vec<usize> = Vec::new();
        match self.arena[left].parent {
            Some(p) => {
                let lo = self.arena[left].order;
                let hi = self.arena[right].order;
                let mut k: usize = lo + 1;
                proof {
                    assert(r@ =~= self.arena@[p as int].children@.subrange(
                        lo + 1,
                        lo + 1,
                    ));
                }
                while k < hi
                    invariant
                        tree_wf(self.arena@),
                        (p as int) < self.arena@.len(),
                        lo + 1 <= k <= hi,
                        hi < self.arena@[p as int].children@.len(),
                        r@ == self.arena@[p as int].children@.subrange(lo + 1, k as int),
                    decreases hi - k,
                {
                    proof {
                        assert(tree_node_wf(self.arena@, p as int));
                    }
                    r.push(self.arena[p].children[k]);
                    proof {
                        assert(r@ =~= self.arena@[p as int].children@.subrange(lo + 1, k + 1));
                    }
                    k = k + 1;
                }
            },
            None => {},
        }
        r
    }

    /// The sibling immediately to the left of `node`, if any.
    pub fn previous_sibling(&self, node: usize) -> (r: Option<usize>)
        requires
            tree_wf(self.arena@),
            (node as int) < self.arena@.len(),
        ensures
            r == (if self.arena@[node as int].order == 0 {
                Option::<usize>::None
            } else {
                Option::<usize>::Some(
                    self.arena@[self.arena@[node as int].parent->Some_0 as int].children@[
                        self.arena@[node as int].order - 1],
                )
            }),
    {
        proof {
            assert(tree_node_wf(self.arena@, node as int));
        }
        let order = self.arena[node].order;
        if order == 0 {
            return None;
        }
        let p = match self.arena[node].parent {
            Some(p) => p,
            None => 0,  // a node with left siblings always has a parent
        };
        proof {
            assert(tree_node_wf(self.arena@, p as int));
        }
        Some(self.arena[p].children[order - 1])
    }
}

/// A cached node's depth never exceeds its arena index.
pub proof fn lemma_tree_depth_le_index<D>(s: Seq<TreeNode<D>>, i: int)
    requires
        tree_wf(s),
        0 <= i < s.len(),
    ensures
        s[i].depth as int <= i,
    decreases i,
{
    assert(tree_node_wf(s, i));
    match s[i].parent {
        Some(p) => {
            lemma_tree_depth_le_index(s, p as int);
        },
        None => {},
    }
}

} // verus!
