//! Pre-order traversal over the layout arena.

use vstd::prelude::*;
use crate::node::{LayoutNode, arena_wf, node_wf};

verus! {

/// The pre-order listing of `v`'s subtree: `v`, then each child's
/// subtree in turn, left to right.
pub open spec fn preorder(s: Seq<LayoutNode>, v: int) -> Seq<usize>
    decreases s.len() - v, 1int, 0int,
{
    if v < 0 || v >= s.len() {
        Seq::empty()
    } else {
        preorder_upto(s, v, s[v].children@.len() as int)
    }
}

/// `v` followed by the pre-order listings of its first `k` children.
pub open spec fn preorder_upto(s: Seq<LayoutNode>, v: int, k: int) -> Seq<usize>
    decreases s.len() - v, 0int, (if k > 0 { k } else { 0 }),
{
    if v < 0 || v >= s.len() {
        Seq::empty()
    } else if k <= 0 {
        seq![v as usize]
    } else if k > s[v].children@.len() {
        preorder_upto(s, v, s[v].children@.len() as int)
    } else {
        let c = s[v].children@[k - 1] as int;
        if c <= v || c >= s.len() {
            preorder_upto(s, v, k - 1)
        } else {
            preorder_upto(s, v, k - 1) + preorder(s, c)
        }
    }
}

/// Every element of the listing is below `n`.
pub open spec fn all_lt(q: Seq<usize>, n: int) -> bool {
    forall|j: int| 0 <= j < q.len() ==> (#[trigger] q[j] as int) < n
}

/// Bounded elements survive concatenation.
pub proof fn lemma_all_lt_concat(a: Seq<usize>, b: Seq<usize>, n: int)
    requires
        all_lt(a, n),
        all_lt(b, n),
    ensures
        all_lt(a + b, n),
{
    assert forall|j: int| 0 <= j < (a + b).len() implies (#[trigger] (a + b)[j] as int) < n by {
        if j < a.len() {
            assert((a + b)[j] == a[j]);
        } else {
            assert((a + b)[j] == b[j - a.len()]);
        }
    }
}

/// Every index a pre-order listing mentions is in the arena.
pub proof fn lemma_preorder_bounds(s: Seq<LayoutNode>, v: int)
    ensures
        all_lt(preorder(s, v), s.len() as int),
    decreases s.len() - v, 1int, 0int,
{
    if 0 <= v < s.len() {
        lemma_preorder_upto_bounds(s, v, s[v].children@.len() as int);
    }
}

/// Bounds for the child-prefix form of the listing.
pub proof fn lemma_preorder_upto_bounds(s: Seq<LayoutNode>, v: int, k: int)
    ensures
        all_lt(preorder_upto(s, v, k), s.len() as int),
    decreases s.len() - v, 0int, (if k > 0 { k } else { 0 }),
{
    if v < 0 || v >= s.len() {
    } else if k <= 0 {
    } else if k > s[v].children@.len() {
        lemma_preorder_upto_bounds(s, v, s[v].children@.len() as int);
    } else {
        lemma_preorder_upto_bounds(s, v, k - 1);
        let c = s[v].children@[k - 1] as int;
        if c > v && c < s.len() {
            lemma_preorder_bounds(s, c);
            lemma_all_lt_concat(preorder_upto(s, v, k - 1), preorder(s, c), s.len() as int);
        }
    }
}

/// Append the indices of `v`'s subtree to `nodes` in pre-order: each
/// node before its children, children left to right.
pub fn recursive_iter(t: &Vec<LayoutNode>, v: usize, nodes: &mut Vec<usize>)
    requires
        arena_wf(t@),
        (v as int) < t@.len(),
    ensures
        final(nodes)@ == old(nodes)@ + preorder(t@, v as int),
    decreases t@.len() - v,
{
    let ghost orig = nodes@;
    nodes.push(v);
    proof {
        assert(node_wf(t@, v as int));
        assert(nodes@ =~= orig + preorder_upto(t@, v as int, 0));
    }
    let cs = t[v].children.len();
    let mut k: usize = 0;
    while k < cs
        invariant
            arena_wf(t@),
            (v as int) < t@.len(),
            cs == t@[v as int].children@.len(),
            k <= cs,
            nodes@ == orig + preorder_upto(t@, v as int, k as int),
        decreases cs - k,
    {
        proof {
            assert(node_wf(t@, v as int));
        }
        let c = t[v].children[k];
        let ghost pre = nodes@;
        recursive_iter(t, c, nodes);
        proof {
            assert(c > v && (c as int) < t@.len());
            assert(nodes@ =~= orig + (preorder_upto(t@, v as int, k as int) + preorder(
                t@,
                c as int,
            )));
            assert(preorder_upto(t@, v as int, k + 1) == preorder_upto(t@, v as int, k as int)
                + preorder(t@, c as int));
        }
        k = k + 1;
    }
    proof {
        assert(preorder(t@, v as int) == preorder_upto(t@, v as int, cs as int));
    }
}

/// A pre-order walk handed out as a cursor over the collected indices.
pub struct Traverse {
    pub nodes: Vec<usize>,
    pub at: usize,
}

impl Traverse {
    /// A cursor over the subtree of `v`, in pre-order.
    pub fn new(t: &Vec<LayoutNode>, v: usize) -> (r: Self)
        requires
            arena_wf(t@),
            (v as int) < t@.len(),
        ensures
            r.at == 0,
            r.nodes@ == preorder(t@, v as int),
            r.nodes@.len() >= 1,
            r.nodes@[0] == v,
            forall|k: int| 0 <= k < r.nodes@.len() ==> (#[trigger] r.nodes@[k] as int) < t@.len(),
    {
        let mut nodes: Vec<usize> = Vec::new();
        recursive_iter(t, v, &mut nodes);
        proof {
            lemma_preorder_bounds(t@, v as int);
            lemma_preorder_first(t@, v as int);
            assert(all_lt(preorder(t@, v as int), t@.len() as int));
            assert(nodes@ =~= preorder(t@, v as int));
        }
        Traverse { nodes, at: 0 }
    }

    /// The next index of the walk, or `None` once exhausted.
    pub fn next(&mut self) -> (r: Option<usize>)
        ensures
            final(self).nodes@ == old(self).nodes@,
            (old(self).at as int) < old(self).nodes@.len() ==> r == Some(
                old(self).nodes@[old(self).at as int],
            ) && final(self).at == old(self).at + 1,
            (old(self).at as int) >= old(self).nodes@.len() ==> r is None && final(self).at == old(
                self,
            ).at,
    {
        if self.at < self.nodes.len() {
            let r = self.nodes[self.at];
            self.at = self.at + 1;
            Some(r)
        } else {
            None
        }
    }
}

/// A pre-order listing is non-empty and starts with its root.
pub proof fn lemma_preorder_first(s: Seq<LayoutNode>, v: int)
    requires
        0 <= v < s.len(),
    ensures
        preorder(s, v).len() >= 1,
        preorder(s, v)[0] == v as usize,
{
    lemma_preorder_upto_first(s, v, s[v].children@.len() as int);
}

/// The child-prefix form is non-empty and starts with its root.
pub proof fn lemma_preorder_upto_first(s: Seq<LayoutNode>, v: int, k: int)
    requires
        0 <= v < s.len(),
    ensures
        preorder_upto(s, v, k).len() >= 1,
        preorder_upto(s, v, k)[0] == v as usize,
    decreases (if k > 0 { k } else { 0 }),
{
    if k <= 0 {
    } else if k > s[v].children@.len() {
        lemma_preorder_upto_first(s, v, s[v].children@.len() as int);
    } else {
        lemma_preorder_upto_first(s, v, k - 1);
    }
}

} // verus!
