//! The guards through which the nodes of a tree are changed.
//!
//! A guard names one node by the position of its slot. It borrows nothing:
//! the operation that it belongs to is handed to each of its methods, and
//! each method says in its contract what the guard has to be for the call.

use crate::node::{InvalidBranchIndex, ParentId, WrongChildrenNum};
use crate::operation::TreeOperation;
use vstd::prelude::*;

verus! {

/// Write access to a node and, through its children, to all that lies
/// below it.
#[derive(Debug)]
pub struct NodeWriteGuard {
    index: usize,
}

/// Ownership of a detached subtree, named by its root. The subtree stays
/// detached until the guard is handed to an operation that attaches it or
/// takes its element.
#[derive(Debug)]
pub struct NodeOwnedGuard {
    index: usize,
}

/// Write access to the children of a node.
#[derive(Debug)]
pub struct ChildWriteGuard {
    index: usize,
}

impl NodeWriteGuard {
    /// The position of the node's slot.
    pub closed spec fn slot(&self) -> usize {
        self.index
    }

    /// The guard names a node, and the slot that owns the node, if a slot
    /// does, holds a node too.
    pub open spec fn wf<T, const B: usize>(&self, op: &TreeOperation<'_, T, B>) -> bool {
        &&& op@.is_present(self.slot() as int)
        &&& match op@.parent_of(self.slot() as int) {
            Some(p) => op@.is_present(p),
            None => true,
        }
    }

    /// A guard for the node at `index`.
    pub(crate) fn at(index: usize) -> (guard: Self)
        ensures
            guard.slot() == index,
    {
        NodeWriteGuard { index }
    }

    /// The position of the node's slot.
    pub(crate) fn position(&self) -> (index: usize)
        ensures
            index == self.slot(),
    {
        self.index
    }

    /// Mutable access to the node's element, and a guard for the node's
    /// children. The guard for the children can be used once the access to
    /// the element has ended.
    pub fn borrow_split<'a, T, const B: usize>(
        &self,
        op: &'a mut TreeOperation<'_, T, B>,
    ) -> (parts: (&'a mut T, ChildWriteGuard))
        requires
            old(op).wf(),
            self.wf(old(op)),
        ensures
            *parts.0 == old(op)@.elem(self.slot() as int),
            parts.1.slot() == self.slot(),
            final(op)@ == old(op)@.set_elem(self.slot() as int, *final(parts.0)),
            final(op).heights() == old(op).heights(),
            final(op).wf(),
            *final(final(op).tree) == *final(old(op).tree),
    {
        let children = ChildWriteGuard { index: self.index };
        (op.elem_mut_at(self.index), children)
    }

    /// As [`NodeWriteGuard::borrow_split`], giving up the guard.
    pub fn into_split<'a, T, const B: usize>(self, op: &'a mut TreeOperation<'_, T, B>) -> (parts: (
        &'a mut T,
        ChildWriteGuard,
    ))
        requires
            old(op).wf(),
            self.wf(old(op)),
        ensures
            *parts.0 == old(op)@.elem(self.slot() as int),
            parts.1.slot() == self.slot(),
            final(op)@ == old(op)@.set_elem(self.slot() as int, *final(parts.0)),
            final(op).heights() == old(op).heights(),
            final(op).wf(),
            *final(final(op).tree) == *final(old(op).tree),
    {
        let children = ChildWriteGuard { index: self.index };
        (op.elem_mut_at(self.index), children)
    }

    /// Mutable access to the node's element.
    pub fn elem<'a, T, const B: usize>(&self, op: &'a mut TreeOperation<'_, T, B>) -> (elem:
        &'a mut T)
        requires
            old(op).wf(),
            self.wf(old(op)),
        ensures
            *elem == old(op)@.elem(self.slot() as int),
            final(op)@ == old(op)@.set_elem(self.slot() as int, *final(elem)),
            final(op).heights() == old(op).heights(),
            final(op).wf(),
            *final(final(op).tree) == *final(old(op).tree),
    {
        op.elem_mut_at(self.index)
    }

    /// A guard for the node's children.
    pub fn children(&self) -> (children: ChildWriteGuard)
        ensures
            children.slot() == self.slot(),
    {
        ChildWriteGuard { index: self.index }
    }

    /// Detaches the node from what owns it: the child reference of its
    /// parent is cleared, or the tree is left without a root. The guard
    /// that comes back owns the node and all below it.
    pub fn detach<T, const B: usize>(self, op: &mut TreeOperation<'_, T, B>) -> (guard:
        NodeOwnedGuard)
        requires
            old(op).wf(),
            self.wf(old(op)),
            old(op)@.tag(self.slot() as int) != ParentId::Detached,
        ensures
            final(op).wf(),
            final(op)@ == old(op)@.detach(self.slot() as int),
            final(op).heights() == old(op).heights(),
            guard.slot() == self.slot(),
            guard.wf(final(op)),
            *final(final(op).tree) == *final(old(op).tree),
    {
        op.detach_at(self.index)
    }
}

impl NodeOwnedGuard {
    /// The position of the slot of the subtree's root.
    pub closed spec fn slot(&self) -> usize {
        self.index
    }

    /// The guard names a node that is the root of a detached subtree.
    pub open spec fn wf<T, const B: usize>(&self, op: &TreeOperation<'_, T, B>) -> bool {
        &&& op@.is_present(self.slot() as int)
        &&& op@.tag(self.slot() as int) == ParentId::Detached
    }

    /// A guard for the node at `index`.
    pub(crate) fn at(index: usize) -> (guard: Self)
        ensures
            guard.slot() == index,
    {
        NodeOwnedGuard { index }
    }

    /// The position of the slot of the subtree's root.
    pub(crate) fn position(&self) -> (index: usize)
        ensures
            index == self.slot(),
    {
        self.index
    }

    /// Mutable access to the root element of the subtree, and a guard for
    /// the root's children. The guard for the children can be used once the
    /// access to the element has ended.
    pub fn split<'a, T, const B: usize>(&self, op: &'a mut TreeOperation<'_, T, B>) -> (parts: (
        &'a mut T,
        ChildWriteGuard,
    ))
        requires
            old(op).wf(),
            self.wf(old(op)),
        ensures
            *parts.0 == old(op)@.elem(self.slot() as int),
            parts.1.slot() == self.slot(),
            final(op)@ == old(op)@.set_elem(self.slot() as int, *final(parts.0)),
            final(op).heights() == old(op).heights(),
            final(op).wf(),
            *final(final(op).tree) == *final(old(op).tree),
    {
        let children = ChildWriteGuard { index: self.index };
        (op.elem_mut_at(self.index), children)
    }

    /// Mutable access to the root element of the subtree.
    pub fn elem<'a, T, const B: usize>(&self, op: &'a mut TreeOperation<'_, T, B>) -> (elem:
        &'a mut T)
        requires
            old(op).wf(),
            self.wf(old(op)),
        ensures
            *elem == old(op)@.elem(self.slot() as int),
            final(op)@ == old(op)@.set_elem(self.slot() as int, *final(elem)),
            final(op).heights() == old(op).heights(),
            final(op).wf(),
            *final(final(op).tree) == *final(old(op).tree),
    {
        op.elem_mut_at(self.index)
    }

    /// A guard for the children of the subtree's root.
    pub fn children(&self) -> (children: ChildWriteGuard)
        ensures
            children.slot() == self.slot(),
    {
        ChildWriteGuard { index: self.index }
    }

    /// Takes the root element out of the subtree. The root becomes garbage,
    /// and with it all below it.
    pub fn into_elem<T, const B: usize>(self, op: &mut TreeOperation<'_, T, B>) -> (elem: T)
        requires
            old(op).wf(),
            self.wf(old(op)),
        ensures
            elem == old(op)@.elem(self.slot() as int),
            final(op).wf(),
            final(op)@ == old(op)@.discard(self.slot() as int),
            final(op).heights() == old(op).heights(),
            *final(final(op).tree) == *final(old(op).tree),
    {
        proof {
            op@.lemma_discard_wf(self.index as int, B as nat);
            op@.lemma_discard_ranked(op.heights(), self.index as int, B as nat);
        }
        op.tree.discard(self.index)
    }
}

/// What a guard for the child at `branch` of the node at `n` has to be:
/// none where there is no child, else one that names the child.
pub open spec fn guards_child<T, const B: usize>(
    op: &TreeOperation<'_, T, B>,
    n: usize,
    branch: usize,
    guard: Option<NodeWriteGuard>,
) -> bool {
    match op@.child(n as int, branch as int) {
        Some(c) => {
            &&& guard is Some
            &&& guard.unwrap().slot() == c
            &&& guard.unwrap().wf(op)
            &&& op@.tag(c as int) == ParentId::Attached { parent_index: n, this_branch: branch }
            &&& op.heights()[c as int] < op.heights()[n as int]
        },
        None => guard is None,
    }
}

impl ChildWriteGuard {
    /// The position of the slot of the node whose children are guarded.
    pub closed spec fn slot(&self) -> usize {
        self.index
    }

    /// The guard names a node.
    pub open spec fn wf<T, const B: usize>(&self, op: &TreeOperation<'_, T, B>) -> bool {
        op@.is_present(self.slot() as int)
    }

    /// A guard for the child at `branch`, if there is one.
    fn make_child_write_guard<T, const B: usize>(
        &self,
        op: &TreeOperation<'_, T, B>,
        branch: usize,
    ) -> (child: Result<Option<NodeWriteGuard>, InvalidBranchIndex>)
        requires
            op.wf(),
            self.wf(op),
        ensures
            branch >= B ==> child == Err::<Option<NodeWriteGuard>, InvalidBranchIndex>(
                InvalidBranchIndex(branch),
            ),
            branch < B ==> child is Ok && guards_child(op, self.slot(), branch, child.unwrap()),
    {
        if branch >= B {
            return Err(InvalidBranchIndex(branch));
        }
        proof {
            let n = self.index as int;
            assert(op@.slots[n].children().len() == B);
            assert(op@.link_ok(n, branch as int));
            assert(op@.edge_ranked(op.heights(), n, branch as int));
        }
        match op.tree.node_at(self.index).child(branch).index {
            Some(c) => Ok(Some(NodeWriteGuard::at(c))),
            None => Ok(None),
        }
    }

    /// A guard for writing to the child at `branch`, if there is one. Fails
    /// when the branch factor has no such branch.
    pub fn borrow_child_write<T, const B: usize>(
        &self,
        op: &TreeOperation<'_, T, B>,
        branch: usize,
    ) -> (child: Result<Option<NodeWriteGuard>, InvalidBranchIndex>)
        requires
            op.wf(),
            self.wf(op),
        ensures
            branch >= B ==> child == Err::<Option<NodeWriteGuard>, InvalidBranchIndex>(
                InvalidBranchIndex(branch),
            ),
            branch < B ==> child is Ok && guards_child(op, self.slot(), branch, child.unwrap()),
    {
        self.make_child_write_guard(op, branch)
    }

    /// As [`ChildWriteGuard::borrow_child_write`], giving up the guard.
    pub fn into_child_write<T, const B: usize>(
        self,
        op: &TreeOperation<'_, T, B>,
        branch: usize,
    ) -> (child: Result<Option<NodeWriteGuard>, InvalidBranchIndex>)
        requires
            op.wf(),
            self.wf(op),
        ensures
            branch >= B ==> child == Err::<Option<NodeWriteGuard>, InvalidBranchIndex>(
                InvalidBranchIndex(branch),
            ),
            branch < B ==> child is Ok && guards_child(op, self.slot(), branch, child.unwrap()),
    {
        self.make_child_write_guard(op, branch)
    }

    /// Fills `out` with one guard per branch: the guard for the child
    /// there, or none. Fails, and leaves `out` as it is, when `out` does
    /// not have one entry per branch.
    pub fn borrow_all_children<T, const B: usize>(
        &self,
        op: &TreeOperation<'_, T, B>,
        out: &mut Vec<Option<NodeWriteGuard>>,
    ) -> (filled: Result<(), WrongChildrenNum>)
        requires
            op.wf(),
            self.wf(op),
        ensures
            old(out)@.len() != B ==> filled == Err::<(), WrongChildrenNum>(
                WrongChildrenNum { expected_num: B, actual_num: old(out)@.len() as usize },
            ) && final(out)@ == old(out)@,
            old(out)@.len() == B ==> filled is Ok && final(out)@.len() == B && forall|k: int|
                0 <= k < B ==> guards_child(op, self.slot(), k as usize, #[trigger] final(out)@[k]),
    {
        if out.len() != B {
            return Err(WrongChildrenNum { expected_num: B, actual_num: out.len() });
        }
        let mut k: usize = 0;
        while k < B
            invariant
                k <= B,
                op.wf(),
                self.wf(op),
                out@.len() == B,
                forall|j: int|
                    0 <= j < k ==> guards_child(op, self.slot(), j as usize, #[trigger] out@[j]),
            decreases B - k,
        {
            let child = match self.make_child_write_guard(op, k) {
                Ok(child) => child,
                Err(_) => None,
            };
            out[k] = child;
            k = k + 1;
        }
        Ok(())
    }

    /// As [`ChildWriteGuard::borrow_all_children`], giving up the guard.
    pub fn into_all_children<T, const B: usize>(
        self,
        op: &TreeOperation<'_, T, B>,
        out: &mut Vec<Option<NodeWriteGuard>>,
    ) -> (filled: Result<(), WrongChildrenNum>)
        requires
            op.wf(),
            self.wf(op),
        ensures
            old(out)@.len() != B ==> filled == Err::<(), WrongChildrenNum>(
                WrongChildrenNum { expected_num: B, actual_num: old(out)@.len() as usize },
            ) && final(out)@ == old(out)@,
            old(out)@.len() == B ==> filled is Ok && final(out)@.len() == B && forall|k: int|
                0 <= k < B ==> guards_child(op, self.slot(), k as usize, #[trigger] final(out)@[k]),
    {
        self.borrow_all_children(op, out)
    }

    /// Detaches the child at `branch`, if there is one. The guard that
    /// comes back owns the child and all below it. Fails, and changes
    /// nothing, when the branch factor has no such branch.
    pub fn take_child<T, const B: usize>(
        &self,
        op: &mut TreeOperation<'_, T, B>,
        branch: usize,
    ) -> (child: Result<Option<NodeOwnedGuard>, InvalidBranchIndex>)
        requires
            old(op).wf(),
            self.wf(old(op)),
        ensures
            final(op).wf(),
            final(op).heights() == old(op).heights(),
            branch >= B ==> child == Err::<Option<NodeOwnedGuard>, InvalidBranchIndex>(
                InvalidBranchIndex(branch),
            ) && final(op)@ == old(op)@,
            branch < B ==> child is Ok && final(op)@ == old(op)@.take_child(
                self.slot() as int,
                branch as int,
            ) && match old(op)@.child(self.slot() as int, branch as int) {
                Some(c) => child.unwrap() is Some && child.unwrap().unwrap().slot() == c
                    && child.unwrap().unwrap().wf(final(op)),
                None => child.unwrap() is None,
            },
            *final(final(op).tree) == *final(old(op).tree),
    {
        op.take_child_at(self.index, branch)
    }

    /// Makes a new node with element `elem` the child at `branch`. Returns
    /// whether there was a child; that child and all below it become
    /// garbage. Fails, and changes nothing, when the branch factor has no
    /// such branch.
    pub fn put_child_elem<T, const B: usize>(
        &self,
        op: &mut TreeOperation<'_, T, B>,
        branch: usize,
        elem: T,
    ) -> (displaced: Result<bool, InvalidBranchIndex>)
        requires
            old(op).wf(),
            self.wf(old(op)),
            branch < B ==> old(op)@.slots.len() < usize::MAX,
        ensures
            final(op).wf(),
            branch >= B ==> displaced == Err::<bool, InvalidBranchIndex>(
                InvalidBranchIndex(branch),
            ) && final(op)@ == old(op)@ && final(op).heights() == old(op).heights(),
            branch < B ==> displaced == Ok::<bool, InvalidBranchIndex>(
                old(op)@.child(self.slot() as int, branch as int) is Some,
            ) && final(op)@ == old(op)@.put_child_elem(
                self.slot() as int,
                branch as int,
                elem,
                B as nat,
            ) && final(op).heights() == old(op)@.heights_put_child_elem(
                old(op).heights(),
                self.slot() as int,
            ),
            *final(final(op).tree) == *final(old(op).tree),
    {
        if branch >= B {
            return Err(InvalidBranchIndex(branch));
        }
        let n = self.index;
        proof {
            let v = op@;
            v.lemma_put_child_elem_wf(n as int, branch as int, elem, B as nat);
            v.lemma_put_child_elem_ranked(op.heights(), n as int, branch as int, elem, B as nat);
            assert(v.slots[n as int].children().len() == B);
            assert(v.link_ok(n as int, branch as int));
        }
        let ghost heights = op@.heights_put_child_elem(op.heights(), n as int);
        let i = op.tree.append(elem, ParentId::Attached { parent_index: n, this_branch: branch });
        let displaced = op.delete_child(n, branch);
        op.tree.set_child(n, branch, Some(i));
        op.tree.set_heights(Ghost(heights));
        Ok(displaced)
    }

    /// Makes a detached subtree the child at `branch`. Returns whether
    /// there was a child; that child and all below it become garbage.
    /// Fails, and changes nothing, when the branch factor has no such
    /// branch.
    ///
    /// The subtree must not hold the node that it is attached to: its root
    /// is not that node and does not lie above it.
    pub fn put_child_tree<T, const B: usize>(
        &self,
        op: &mut TreeOperation<'_, T, B>,
        branch: usize,
        subtree: NodeOwnedGuard,
    ) -> (displaced: Result<bool, InvalidBranchIndex>)
        requires
            old(op).wf(),
            self.wf(old(op)),
            subtree.wf(old(op)),
            branch < B ==> !old(op)@.has_ancestor(self.slot() as int, subtree.slot() as int),
        ensures
            final(op).wf(),
            branch >= B ==> displaced == Err::<bool, InvalidBranchIndex>(
                InvalidBranchIndex(branch),
            ) && final(op)@ == old(op)@ && final(op).heights() == old(op).heights(),
            branch < B ==> displaced == Ok::<bool, InvalidBranchIndex>(
                old(op)@.child(self.slot() as int, branch as int) is Some,
            ) && final(op)@ == old(op)@.put_child_tree(
                self.slot() as int,
                branch as int,
                subtree.slot() as int,
            ) && final(op).heights() == old(op)@.heights_put_child_tree(
                old(op).heights(),
                self.slot() as int,
                subtree.slot() as int,
            ),
            *final(final(op).tree) == *final(old(op).tree),
    {
        if branch >= B {
            return Err(InvalidBranchIndex(branch));
        }
        let n = self.index;
        let s = subtree.position();
        proof {
            let v = op@;
            assert(v.ancestor(n as int, 0) == Some(n as int));
            v.lemma_put_child_tree_wf(n as int, branch as int, s as int, B as nat);
            v.lemma_put_child_tree_ranked(op.heights(), n as int, branch as int, s as int, B as nat);
            assert(v.slots[n as int].children().len() == B);
            assert(v.link_ok(n as int, branch as int));
        }
        let ghost heights = op@.heights_put_child_tree(op.heights(), n as int, s as int);
        let displaced = op.delete_child(n, branch);
        op.tree.set_child(n, branch, Some(s));
        op.tree.set_tag(s, ParentId::Attached { parent_index: n, this_branch: branch });
        op.tree.set_heights(Ghost(heights));
        Ok(displaced)
    }
}

} // verus!
