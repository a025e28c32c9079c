//! The write traverser: a position in a tree under change that can move to
//! the parent of its node as well as to the children.

use crate::guard::NodeOwnedGuard;
use crate::node::{AboveMe, ChildNotFound, InvalidBranchIndex, NoParent, ParentId};
use crate::operation::TreeOperation;
use crate::read::{above, no_parent};
use vstd::prelude::*;

verus! {

/// A position at one node of a tree under change. Unlike a write guard it
/// can move up, so it stands for access to the whole tree.
#[derive(Debug)]
pub struct TreeWriteTraverser {
    index: usize,
}

impl TreeWriteTraverser {
    /// The position of the slot of the node that the traverser is at.
    pub closed spec fn slot(&self) -> usize {
        self.index
    }

    /// The traverser is at a node.
    pub open spec fn wf<T, const B: usize>(&self, op: &TreeOperation<'_, T, B>) -> bool {
        op@.is_present(self.slot() as int)
    }

    /// The slot that owns the node, if a slot does, holds a node.
    pub open spec fn owner_present<T, const B: usize>(
        &self,
        op: &TreeOperation<'_, T, B>,
    ) -> bool {
        match op@.parent_of(self.slot() as int) {
            Some(p) => op@.is_present(p),
            None => true,
        }
    }

    /// A traverser at the node at `index`.
    pub(crate) fn at(index: usize) -> (traverser: Self)
        ensures
            traverser.slot() == index,
    {
        TreeWriteTraverser { index }
    }

    /// The position of the slot of the node that the traverser is at.
    pub(crate) fn position(&self) -> (index: usize)
        ensures
            index == self.slot(),
    {
        self.index
    }

    /// What owns the node.
    pub fn above_me<T, const B: usize>(&self, op: &TreeOperation<'_, T, B>) -> (owner: AboveMe)
        requires
            op.wf(),
            self.wf(op),
        ensures
            owner == above(op@.tag(self.slot() as int)),
    {
        match op.tree.node_at(self.index).parent() {
            ParentId::Attached { .. } => AboveMe::Parent,
            ParentId::Root => AboveMe::Root,
            ParentId::Detached => AboveMe::Detached,
            ParentId::Garbage => AboveMe::Detached,
        }
    }

    /// Moves the traverser to the node's parent. Fails, and stays, when the
    /// node is the root of the tree or of a detached subtree.
    pub fn seek_parent<T, const B: usize>(&mut self, op: &TreeOperation<'_, T, B>) -> (moved:
        Result<(), NoParent>)
        requires
            op.wf(),
            old(self).wf(op),
            old(self).owner_present(op),
        ensures
            final(self).wf(op),
            match op@.tag(old(self).slot() as int) {
                ParentId::Attached { parent_index, .. } => moved is Ok && final(self).slot()
                    == parent_index,
                tag => moved matches Err(e) && Some(e) == no_parent(tag) && final(self).slot() == old(self).slot(),
            },
    {
        match op.tree.node_at(self.index).parent() {
            ParentId::Attached { parent_index, .. } => {
                self.index = parent_index;
                Ok(())
            },
            ParentId::Root => Err(NoParent::Root),
            ParentId::Detached => Err(NoParent::Detached),
            ParentId::Garbage => Err(NoParent::Detached),
        }
    }

    /// Whether the node has a child at `branch`. Fails when the branch
    /// factor has no such branch.
    pub fn has_child<T, const B: usize>(&self, op: &TreeOperation<'_, T, B>, branch: usize) -> (has:
        Result<bool, InvalidBranchIndex>)
        requires
            op.wf(),
            self.wf(op),
        ensures
            branch >= B ==> has == Err::<bool, InvalidBranchIndex>(InvalidBranchIndex(branch)),
            branch < B ==> has == Ok::<bool, InvalidBranchIndex>(
                op@.child(self.slot() as int, branch as int) is Some,
            ),
    {
        if branch >= B {
            return Err(InvalidBranchIndex(branch));
        }
        Ok(op.tree.node_at(self.index).child(branch).index.is_some())
    }

    /// Moves the traverser to the child at `branch`. Fails, and stays, when
    /// the branch factor has no such branch or the branch has no child.
    pub fn seek_child<T, const B: usize>(
        &mut self,
        op: &TreeOperation<'_, T, B>,
        branch: usize,
    ) -> (moved: Result<Result<(), ChildNotFound>, InvalidBranchIndex>)
        requires
            op.wf(),
            old(self).wf(op),
        ensures
            final(self).wf(op),
            branch >= B ==> moved == Err::<Result<(), ChildNotFound>, InvalidBranchIndex>(
                InvalidBranchIndex(branch),
            ) && final(self).slot() == old(self).slot(),
            branch < B ==> match op@.child(old(self).slot() as int, branch as int) {
                Some(c) => moved == Ok::<Result<(), ChildNotFound>, InvalidBranchIndex>(Ok(()))
                    && final(self).slot() == c && final(self).owner_present(op),
                None => moved == Ok::<Result<(), ChildNotFound>, InvalidBranchIndex>(
                    Err(ChildNotFound(branch)),
                ) && final(self).slot() == old(self).slot(),
            },
    {
        if branch >= B {
            return Err(InvalidBranchIndex(branch));
        }
        proof {
            let n = self.index as int;
            assert(op@.slots[n].children().len() == B);
            assert(op@.link_ok(n, branch as int));
        }
        match op.tree.node_at(self.index).child(branch).index {
            Some(c) => {
                self.index = c;
                Ok(Ok(()))
            },
            None => Ok(Err(ChildNotFound(branch))),
        }
    }

    /// Detaches the node that the traverser is at from what owns it. The
    /// guard that comes back owns the node and all below it.
    pub fn detach_this<T, const B: usize>(self, op: &mut TreeOperation<'_, T, B>) -> (guard:
        NodeOwnedGuard)
        requires
            old(op).wf(),
            self.wf(old(op)),
            old(op)@.tag(self.slot() as int) != ParentId::Detached,
        ensures
            final(op).wf(),
            final(op)@ == old(op)@.detach(self.slot() as int),
            final(op).heights() == old(op).heights(),
            guard.slot() == self.slot(),
            guard.wf(final(op)),
            *final(final(op).tree) == *final(old(op).tree),
    {
        op.detach_at(self.index)
    }

    /// Detaches the child at `branch`. The guard that comes back owns the
    /// child and all below it. Fails, and changes nothing, when the branch
    /// factor has no such branch or the branch has no child.
    pub fn detach_child<T, const B: usize>(
        &self,
        op: &mut TreeOperation<'_, T, B>,
        branch: usize,
    ) -> (child: Result<Result<NodeOwnedGuard, ChildNotFound>, InvalidBranchIndex>)
        requires
            old(op).wf(),
            self.wf(old(op)),
        ensures
            final(op).wf(),
            final(op).heights() == old(op).heights(),
            final(op)@ == if branch < B {
                old(op)@.take_child(self.slot() as int, branch as int)
            } else {
                old(op)@
            },
            branch >= B ==> child == Err::<
                Result<NodeOwnedGuard, ChildNotFound>,
                InvalidBranchIndex,
            >(InvalidBranchIndex(branch)),
            branch < B ==> child is Ok && match old(op)@.child(self.slot() as int, branch as int) {
                Some(c) => child.unwrap() is Ok && child.unwrap().unwrap().slot() == c
                    && child.unwrap().unwrap().wf(final(op)),
                None => child.unwrap() == Err::<NodeOwnedGuard, ChildNotFound>(
                    ChildNotFound(branch),
                ),
            },
            *final(final(op).tree) == *final(old(op).tree),
    {
        match op.take_child_at(self.index, branch) {
            Ok(Some(guard)) => Ok(Ok(guard)),
            Ok(None) => Ok(Err(ChildNotFound(branch))),
            Err(e) => Err(e),
        }
    }

    /// The branch at which the node is a child of its parent. Fails when
    /// the node is the root of the tree or of a detached subtree.
    pub fn this_branch_index<T, const B: usize>(&self, op: &TreeOperation<'_, T, B>) -> (branch:
        Result<usize, NoParent>)
        requires
            op.wf(),
            self.wf(op),
        ensures
            match op@.tag(self.slot() as int) {
                ParentId::Attached { this_branch, .. } => branch == Ok::<usize, NoParent>(
                    this_branch,
                ),
                tag => branch matches Err(e) && Some(e) == no_parent(tag),
            },
    {
        match op.tree.node_at(self.index).parent() {
            ParentId::Attached { this_branch, .. } => Ok(this_branch),
            ParentId::Root => Err(NoParent::Root),
            ParentId::Detached => Err(NoParent::Detached),
            ParentId::Garbage => Err(NoParent::Detached),
        }
    }

    /// Mutable access to the element of the node that the traverser is at.
    pub fn elem<'a, T, const B: usize>(&self, op: &'a mut TreeOperation<'_, T, B>) -> (elem:
        &'a mut T)
        requires
            old(op).wf(),
            self.wf(old(op)),
        ensures
            *elem == old(op)@.elem(self.slot() as int),
            final(op)@ == old(op)@.set_elem(self.slot() as int, *final(elem)),
            final(op).heights() == old(op).heights(),
            final(op).wf(),
            *final(final(op).tree) == *final(old(op).tree),
    {
        op.elem_mut_at(self.index)
    }
}

} // verus!
