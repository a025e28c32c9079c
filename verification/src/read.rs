//! Read access to a tree: a guard for a node and what lies below it, and a
//! traverser that can also go up.

use crate::node::{AboveMe, ChildNotFound, InvalidBranchIndex, NoParent, NodeIndex, ParentId};
use crate::tree::Tree;
use vstd::prelude::*;

verus! {

/// What owns a node with parent tag `tag`.
pub open spec fn above(tag: ParentId) -> AboveMe {
    match tag {
        ParentId::Attached { .. } => AboveMe::Parent,
        ParentId::Root => AboveMe::Root,
        ParentId::Detached => AboveMe::Detached,
        ParentId::Garbage => AboveMe::Detached,
    }
}

/// What ascending from a node with parent tag `tag` fails with, if it
/// fails.
pub open spec fn no_parent(tag: ParentId) -> Option<NoParent> {
    match tag {
        ParentId::Attached { .. } => None,
        ParentId::Root => Some(NoParent::Root),
        ParentId::Detached => Some(NoParent::Detached),
        ParentId::Garbage => Some(NoParent::Detached),
    }
}

/// Read access to a node and, through its children, to all that lies below
/// it.
pub struct NodeReadGuard<'tree, T, const B: usize> {
    pub tree: &'tree Tree<T, B>,
    pub index: usize,
    pub elem: &'tree T,
}

impl<'tree, T, const B: usize> Clone for NodeReadGuard<'tree, T, B> {
    fn clone(&self) -> (copy: Self)
        ensures
            copy == *self,
    {
        NodeReadGuard { tree: self.tree, index: self.index, elem: self.elem }
    }
}

impl<'tree, T, const B: usize> Copy for NodeReadGuard<'tree, T, B> {

}

impl<'tree, T, const B: usize> core::ops::Deref for NodeReadGuard<'tree, T, B> {
    type Target = T;

    fn deref(&self) -> (elem: &T)
        ensures
            elem == self.elem,
    {
        self.elem
    }
}

impl<'tree, T, const B: usize> NodeReadGuard<'tree, T, B> {
    /// The tree that is read.
    pub open spec fn tree(&self) -> Tree<T, B> {
        *self.tree
    }

    /// The position of the node's slot.
    pub open spec fn slot(&self) -> usize {
        self.index
    }

    /// The guard names a node of a tree whose invariant holds, and gives
    /// that node's element.
    pub open spec fn wf(&self) -> bool {
        &&& self.tree().wf()
        &&& self.tree()@.is_present(self.slot() as int)
        &&& *self.elem == self.tree()@.elem(self.slot() as int)
    }

    /// A guard for the node at `index`.
    pub(crate) fn new(tree: &'tree Tree<T, B>, index: usize) -> (guard: Self)
        requires
            tree.wf(),
            tree@.is_present(index as int),
        ensures
            guard.wf(),
            guard.tree() == *tree,
            guard.slot() == index,
    {
        NodeReadGuard { tree, index, elem: tree.node_at(index).elem() }
    }

    /// A guard for the child at `branch`, if there is one. Fails when the
    /// branch factor has no such branch.
    pub fn child(&self, branch: usize) -> (child: Result<Option<Self>, InvalidBranchIndex>)
        requires
            self.wf(),
        ensures
            branch >= B ==> child == Err::<Option<Self>, InvalidBranchIndex>(
                InvalidBranchIndex(branch),
            ),
            branch < B ==> child is Ok && match self.tree()@.child(
                self.slot() as int,
                branch as int,
            ) {
                Some(c) => child.unwrap() is Some && child.unwrap().unwrap().slot() == c
                    && child.unwrap().unwrap().wf() && child.unwrap().unwrap().tree()
                    == self.tree(),
                None => child.unwrap() is None,
            },
    {
        if branch >= B {
            return Err(InvalidBranchIndex(branch));
        }
        assert(self.tree()@.slots[self.slot() as int].children().len() == B);
        assert(self.tree()@.link_ok(self.slot() as int, branch as int));
        match self.tree.node_at(self.index).child(branch).index {
            Some(c) => Ok(Some(NodeReadGuard::new(self.tree, c))),
            None => Ok(None),
        }
    }

    /// The position of the node's slot, as a handle that names the node
    /// until the next garbage collection.
    pub fn index(&self) -> (index: NodeIndex)
        ensures
            index.index == self.slot(),
    {
        NodeIndex { index: self.index }
    }
}

/// Read access to a whole tree, from the point of view of one of its nodes.
pub struct TreeReadTraverser<'tree, T, const B: usize> {
    pub tree: &'tree Tree<T, B>,
    pub elem: &'tree T,
    pub index: usize,
}

impl<'tree, T, const B: usize> Clone for TreeReadTraverser<'tree, T, B> {
    fn clone(&self) -> (copy: Self)
        ensures
            copy == *self,
    {
        TreeReadTraverser { tree: self.tree, elem: self.elem, index: self.index }
    }
}

impl<'tree, T, const B: usize> Copy for TreeReadTraverser<'tree, T, B> {

}

impl<'tree, T, const B: usize> core::ops::Deref for TreeReadTraverser<'tree, T, B> {
    type Target = T;

    fn deref(&self) -> (elem: &T)
        ensures
            elem == self.elem,
    {
        self.elem
    }
}

impl<'tree, T, const B: usize> TreeReadTraverser<'tree, T, B> {
    /// The position of the slot of the node that the traverser is at.
    pub open spec fn slot(&self) -> usize {
        self.index
    }

    /// The traverser is at a node of a tree whose invariant holds, and
    /// gives that node's element.
    pub open spec fn wf(&self) -> bool {
        &&& self.tree.wf()
        &&& self.tree@.is_present(self.slot() as int)
        &&& *self.elem == self.tree@.elem(self.slot() as int)
    }

    /// The slot that owns the node, if a slot does, holds a node.
    pub open spec fn owner_present(&self) -> bool {
        match self.tree@.parent_of(self.slot() as int) {
            Some(p) => self.tree@.is_present(p),
            None => true,
        }
    }

    /// A traverser at the node at `index`.
    pub(crate) fn new(tree: &'tree Tree<T, B>, index: usize) -> (traverser: Self)
        requires
            tree.wf(),
            tree@.is_present(index as int),
        ensures
            traverser.wf(),
            *traverser.tree == *tree,
            traverser.slot() == index,
    {
        TreeReadTraverser { tree, elem: tree.node_at(index).elem(), index }
    }

    /// What owns the node.
    pub fn above_me(&self) -> (owner: AboveMe)
        requires
            self.wf(),
        ensures
            owner == above(self.tree@.tag(self.slot() as int)),
    {
        match self.tree.node_at(self.index).parent() {
            ParentId::Attached { .. } => AboveMe::Parent,
            ParentId::Root => AboveMe::Root,
            ParentId::Detached => AboveMe::Detached,
            ParentId::Garbage => AboveMe::Detached,
        }
    }

    /// A traverser at the node's parent. Fails when the node is the root
    /// of the tree or of a detached subtree.
    pub fn parent(&self) -> (parent: Result<Self, NoParent>)
        requires
            self.wf(),
            self.owner_present(),
        ensures
            match self.tree@.tag(self.slot() as int) {
                ParentId::Attached { parent_index, .. } => parent is Ok && parent.unwrap().slot()
                    == parent_index && parent.unwrap().wf() && *parent.unwrap().tree
                    == *self.tree,
                tag => parent matches Err(e) && Some(e) == no_parent(tag),
            },
    {
        match self.tree.node_at(self.index).parent() {
            ParentId::Attached { parent_index, .. } => Ok(
                TreeReadTraverser::new(self.tree, parent_index),
            ),
            ParentId::Root => Err(NoParent::Root),
            ParentId::Detached => Err(NoParent::Detached),
            ParentId::Garbage => Err(NoParent::Detached),
        }
    }

    /// Moves the traverser to the node's parent. Fails, and stays, when the
    /// node is the root of the tree or of a detached subtree.
    pub fn seek_parent(&mut self) -> (moved: Result<(), NoParent>)
        requires
            old(self).wf(),
            old(self).owner_present(),
        ensures
            final(self).wf(),
            *final(self).tree == *old(self).tree,
            match old(self).tree@.tag(old(self).slot() as int) {
                ParentId::Attached { parent_index, .. } => moved is Ok && final(self).slot()
                    == parent_index,
                tag => moved matches Err(e) && Some(e) == no_parent(tag) && final(self).slot() == old(self).slot(),
            },
    {
        match self.parent() {
            Ok(parent) => {
                *self = parent;
                Ok(())
            },
            Err(e) => Err(e),
        }
    }

    /// Whether the node has a child at `branch`. Fails when the branch
    /// factor has no such branch.
    pub fn has_child(&self, branch: usize) -> (has: Result<bool, InvalidBranchIndex>)
        requires
            self.wf(),
        ensures
            branch >= B ==> has == Err::<bool, InvalidBranchIndex>(InvalidBranchIndex(branch)),
            branch < B ==> has == Ok::<bool, InvalidBranchIndex>(
                self.tree@.child(self.slot() as int, branch as int) is Some,
            ),
    {
        if branch >= B {
            return Err(InvalidBranchIndex(branch));
        }
        Ok(self.tree.node_at(self.index).child(branch).index.is_some())
    }

    /// A traverser at the child at `branch`. Fails when the branch factor
    /// has no such branch, and within that when the branch has no child.
    pub fn child(&self, branch: usize) -> (child: Result<
        Result<Self, ChildNotFound>,
        InvalidBranchIndex,
    >)
        requires
            self.wf(),
        ensures
            branch >= B ==> (child matches Err(e) && e == InvalidBranchIndex(branch)),
            branch < B ==> child is Ok && match self.tree@.child(
                self.slot() as int,
                branch as int,
            ) {
                Some(c) => child.unwrap() is Ok && child.unwrap().unwrap().slot() == c
                    && child.unwrap().unwrap().wf() && child.unwrap().unwrap().owner_present()
                    && *child.unwrap().unwrap().tree == *self.tree,
                None => child matches Ok(Err(e)) && e == ChildNotFound(branch),
            },
    {
        if branch >= B {
            return Err(InvalidBranchIndex(branch));
        }
        assert(self.tree@.slots[self.slot() as int].children().len() == B);
        assert(self.tree@.link_ok(self.slot() as int, branch as int));
        match self.tree.node_at(self.index).child(branch).index {
            Some(c) => Ok(Ok(TreeReadTraverser::new(self.tree, c))),
            None => Ok(Err(ChildNotFound(branch))),
        }
    }

    /// Moves the traverser to the child at `branch`. Fails, and stays, when
    /// the branch factor has no such branch or the branch has no child.
    pub fn seek_child(&mut self, branch: usize) -> (moved: Result<
        Result<(), ChildNotFound>,
        InvalidBranchIndex,
    >)
        requires
            old(self).wf(),
        ensures
            final(self).wf(),
            *final(self).tree == *old(self).tree,
            branch >= B ==> (moved matches Err(e) && e == InvalidBranchIndex(branch)) && final(self).slot() == old(self).slot(),
            branch < B ==> moved is Ok && match old(self).tree@.child(
                old(self).slot() as int,
                branch as int,
            ) {
                Some(c) => moved.unwrap() is Ok && final(self).slot() == c && final(self).owner_present(),
                None => moved matches Ok(Err(e)) && e == ChildNotFound(branch) && final(self).slot() == old(self).slot(),
            },
    {
        match self.child(branch) {
            Ok(Ok(child)) => {
                *self = child;
                Ok(Ok(()))
            },
            Ok(Err(e)) => Ok(Err(e)),
            Err(e) => Err(e),
        }
    }

    /// The branch at which the node is a child of its parent. Fails when
    /// the node is the root of the tree or of a detached subtree.
    pub fn this_branch_index(&self) -> (branch: Result<usize, NoParent>)
        requires
            self.wf(),
        ensures
            match self.tree@.tag(self.slot() as int) {
                ParentId::Attached { this_branch, .. } => branch == Ok::<usize, NoParent>(
                    this_branch,
                ),
                tag => branch matches Err(e) && Some(e) == no_parent(tag),
            },
    {
        match self.tree.node_at(self.index).parent() {
            ParentId::Attached { this_branch, .. } => Ok(this_branch),
            ParentId::Root => Err(NoParent::Root),
            ParentId::Detached => Err(NoParent::Detached),
            ParentId::Garbage => Err(NoParent::Detached),
        }
    }
}

} // verus!
