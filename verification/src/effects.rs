//! What the operations that an ordered set is built from do to single
//! slots, told slot by slot.

use crate::model::TreeView;
use crate::node::{ChildId, ParentId};
use vstd::prelude::*;

verus! {

impl<T> TreeView<T> {
    /// `after` has the slots of `self`, but for those at `a`, `b` and `c`,
    /// and the same root and the same queue.
    pub open spec fn same_but(self, after: Self, a: int, b: int, c: int) -> bool {
        &&& after.slots.len() == self.slots.len()
        &&& after.root == self.root
        &&& after.pending == self.pending
        &&& forall|j: int|
            0 <= j < self.slots.len() && j != a && j != b && j != c ==> #[trigger] after.slots[j]
                == self.slots[j]
    }

    /// Detaching a child changes the slot of the child, which gets another
    /// tag, and the slot of its owner, which loses the reference.
    pub proof fn lemma_take_child_effect(self, h: Seq<nat>, n: int, k: int, b: nat)
        requires
            self.linked(b),
            self.ranked(h),
            self.is_present(n),
            0 <= k < b,
            self.child(n, k) is Some,
        ensures
            ({
                let after = self.take_child(n, k);
                let c = self.child(n, k).unwrap() as int;
                &&& self.same_but(after, n, c, c)
                &&& c != n
                &&& self.is_present(c)
                &&& after.slots[c] == self.slots[c].with_parent(ParentId::Detached)
                &&& after.slots[n] == self.slots[n].with_children(
                    self.slots[n].children().update(k, ChildId { index: None }),
                )
            }),
    {
        assert(self.slots[n].children().len() == b);
        assert(self.link_ok(n, k));
        assert(self.edge_ranked(h, n, k));
    }

    /// Attaching a detached subtree at an empty branch changes the slot of
    /// the subtree's root, which gets another tag, and the slot of the new
    /// owner, which gets the reference.
    pub proof fn lemma_put_child_tree_effect(self, n: int, k: int, s: int, b: nat)
        requires
            self.linked(b),
            self.is_present(n),
            self.is_present(s),
            n != s,
            0 <= k < b,
            self.child(n, k) is None,
        ensures
            ({
                let after = self.put_child_tree(n, k, s);
                &&& self.same_but(after, n, s, s)
                &&& after.slots[s] == self.slots[s].with_parent(
                    ParentId::Attached { parent_index: n as usize, this_branch: k as usize },
                )
                &&& after.slots[n] == self.slots[n].with_children(
                    self.slots[n].children().update(k, ChildId { index: Some(s as usize) }),
                )
            }),
    {
        assert(self.slots[n].children().len() == b);
    }

    /// Turning a node into garbage changes the slot of the node.
    pub proof fn lemma_discard_effect(self, n: int)
        requires
            self.is_present(n),
        ensures
            ({
                let after = self.discard(n);
                &&& after.slots.len() == self.slots.len()
                &&& after.root == self.root
                &&& forall|j: int|
                    0 <= j < self.slots.len() && j != n ==> #[trigger] after.slots[j]
                        == self.slots[j]
                &&& !after.is_present(n)
            }),
    {
    }
}

} // verus!
