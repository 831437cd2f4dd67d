//! The y-list: a monotone stack of (sibling index, lowest y seen) entries.
//!
//! During contour separation it records which earlier sibling must absorb
//! a push when more than one sibling separates the two contours.  The top
//! of the stack is the entry for the deepest-reaching sibling walked so
//! far; entries below it reach strictly deeper.

use vstd::prelude::*;

verus! {

/// One entry: a sibling's position among its siblings and the lowest
/// vertical coordinate its subtree reaches.
pub struct YEntry {
    pub index: usize,
    pub low_y: i64,
}

/// The stack itself; the last element of `entries` is the head.
pub struct LinkedYList {
    pub entries: Vec<YEntry>,
}

/// What `update` keeps: the longest prefix whose head reaches deeper
/// than `y`, i.e. entries hidden by the new subtree are dropped.
pub open spec fn drop_covered(s: Seq<YEntry>, y: i64) -> Seq<YEntry>
    decreases s.len(),
{
    if s.len() > 0 && s.last().low_y <= y {
        drop_covered(s.drop_last(), y)
    } else {
        s
    }
}

impl LinkedYList {
    pub open spec fn view(&self) -> Seq<YEntry> {
        self.entries@
    }

    /// A one-entry list.
    pub fn new(index: usize, y: i64) -> (r: Self)
        ensures
            r@ =~= seq![YEntry { index, low_y: y }],
    {
        let mut entries: Vec<YEntry> = Vec::new();
        entries.push(YEntry { index, low_y: y });
        LinkedYList { entries }
    }

    /// The number of entries on the stack.
    pub fn len(&self) -> (r: usize)
        ensures
            r == self@.len(),
    {
        self.entries.len()
    }

    /// The lowest y of the head entry.
    pub fn bottom(&self) -> (r: i64)
        requires
            self@.len() > 0,
        ensures
            r == self@.last().low_y,
    {
        self.entries[self.entries.len() - 1].low_y
    }

    /// The sibling index of the head entry.
    pub fn index(&self) -> (r: usize)
        requires
            self@.len() > 0,
        ensures
            r == self@.last().index,
    {
        self.entries[self.entries.len() - 1].index
    }

    /// Drop the entries hidden by a subtree reaching down to `y`, then
    /// push the entry for that subtree.
    pub fn update(self, index: usize, y: i64) -> (r: Self)
        ensures
            r@ =~= drop_covered(self@, y).push(YEntry { index, low_y: y }),
            r@.len() >= 1,
    {
        let mut entries = self.entries;
        loop
            invariant
                drop_covered(entries@, y) == drop_covered(self@, y),
            ensures
                entries@ == drop_covered(self@, y),
            decreases entries@.len(),
        {
            if entries.len() > 0 {
                let last = entries.len() - 1;
                if entries[last].low_y <= y {
                    let ghost pre = entries@;
                    let _ = entries.pop();
                    proof {
                        assert(entries@ == pre.drop_last());
                        assert(drop_covered(pre, y) == drop_covered(pre.drop_last(), y));
                    }
                } else {
                    proof {
                        assert(drop_covered(entries@, y) == entries@);
                    }
                    break ;
                }
            } else {
                proof {
                    assert(drop_covered(entries@, y) == entries@);
                }
                break ;
            }
        }
        entries.push(YEntry { index, low_y: y });
        LinkedYList { entries }
    }

    /// Remove the head entry; `None` when it was the last one.
    pub fn pop(self) -> (r: Option<Self>)
        requires
            self@.len() > 0,
        ensures
            match r {
                Some(l) => l@ =~= self@.drop_last(),
                None => self@.len() == 1,
            },
            self@.len() > 1 ==> r is Some,
    {
        let mut entries = self.entries;
        let _ = entries.pop();
        if entries.len() == 0 {
            None
        } else {
            Some(LinkedYList { entries })
        }
    }
}
/// Dropping covered entries keeps a prefix of the stack.
pub proof fn lemma_drop_covered_prefix(s: Seq<YEntry>, y: i64)
    ensures
        drop_covered(s, y).len() <= s.len(),
        forall|k: int| 0 <= k < drop_covered(s, y).len() ==> #[trigger] drop_covered(s, y)[k] == s[k],
    decreases s.len(),
{
    if s.len() > 0 && s.last().low_y <= y {
        lemma_drop_covered_prefix(s.drop_last(), y);
    }
}

} // verus!
