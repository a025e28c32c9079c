//! Turning one kind of guard into another that names the same node.

use crate::guard::{NodeOwnedGuard, NodeWriteGuard};
use crate::read::{NodeReadGuard, TreeReadTraverser};
use crate::traverse::TreeWriteTraverser;
use crate::tree::Tree;
use vstd::prelude::*;

verus! {

/// What can be turned into a read guard for the node that it names.
pub trait IntoReadGuard<'tree, T, const B: usize>: Sized {
    /// The position of the slot of the node that is named.
    spec fn read_slot(&self) -> usize;

    /// A read guard for the named node, as it is in `tree`.
    fn into_read_guard(self, tree: &'tree Tree<T, B>) -> (guard: NodeReadGuard<'tree, T, B>)
        requires
            tree.wf(),
            tree@.is_present(self.read_slot() as int),
        ensures
            guard.wf(),
            guard.slot() == self.read_slot(),
            guard.tree() == *tree,
    ;
}

/// What can be turned into a write guard for the node that it names.
pub trait IntoWriteGuard: Sized {
    /// The position of the slot of the node that is named.
    spec fn write_slot(&self) -> usize;

    /// A write guard for the named node.
    fn into_write_guard(self) -> (guard: NodeWriteGuard)
        ensures
            guard.slot() == self.write_slot(),
    ;
}

impl<'tree, T, const B: usize> IntoReadGuard<'tree, T, B> for NodeWriteGuard {
    open spec fn read_slot(&self) -> usize {
        self.slot()
    }

    fn into_read_guard(self, tree: &'tree Tree<T, B>) -> (guard: NodeReadGuard<'tree, T, B>) {
        NodeReadGuard::new(tree, self.position())
    }
}

impl<'s, 'tree, T, const B: usize> IntoReadGuard<'tree, T, B> for &'s NodeWriteGuard {
    open spec fn read_slot(&self) -> usize {
        self.slot()
    }

    fn into_read_guard(self, tree: &'tree Tree<T, B>) -> (guard: NodeReadGuard<'tree, T, B>) {
        NodeReadGuard::new(tree, self.position())
    }
}

impl<'s, 'tree, T, const B: usize> IntoReadGuard<'tree, T, B> for &'s NodeOwnedGuard {
    open spec fn read_slot(&self) -> usize {
        self.slot()
    }

    fn into_read_guard(self, tree: &'tree Tree<T, B>) -> (guard: NodeReadGuard<'tree, T, B>) {
        NodeReadGuard::new(tree, self.position())
    }
}

impl<'tree, T, const B: usize> IntoReadGuard<'tree, T, B> for TreeWriteTraverser {
    open spec fn read_slot(&self) -> usize {
        self.slot()
    }

    fn into_read_guard(self, tree: &'tree Tree<T, B>) -> (guard: NodeReadGuard<'tree, T, B>) {
        NodeReadGuard::new(tree, self.position())
    }
}

impl<'s, 'tree, T, const B: usize> IntoReadGuard<'tree, T, B> for &'s TreeWriteTraverser {
    open spec fn read_slot(&self) -> usize {
        self.slot()
    }

    fn into_read_guard(self, tree: &'tree Tree<T, B>) -> (guard: NodeReadGuard<'tree, T, B>) {
        NodeReadGuard::new(tree, self.position())
    }
}

impl<'tree, T, const B: usize> IntoReadGuard<'tree, T, B> for NodeReadGuard<'tree, T, B> {
    open spec fn read_slot(&self) -> usize {
        self.slot()
    }

    fn into_read_guard(self, tree: &'tree Tree<T, B>) -> (guard: NodeReadGuard<'tree, T, B>) {
        NodeReadGuard::new(tree, self.index)
    }
}

impl<'s, 'tree, T, const B: usize> IntoReadGuard<'tree, T, B> for &'s TreeReadTraverser<
    'tree,
    T,
    B,
> {
    open spec fn read_slot(&self) -> usize {
        self.slot()
    }

    fn into_read_guard(self, tree: &'tree Tree<T, B>) -> (guard: NodeReadGuard<'tree, T, B>) {
        NodeReadGuard::new(tree, self.index)
    }
}

impl IntoWriteGuard for NodeWriteGuard {
    open spec fn write_slot(&self) -> usize {
        self.slot()
    }

    fn into_write_guard(self) -> (guard: NodeWriteGuard) {
        self
    }
}

impl<'s> IntoWriteGuard for &'s NodeWriteGuard {
    open spec fn write_slot(&self) -> usize {
        self.slot()
    }

    fn into_write_guard(self) -> (guard: NodeWriteGuard) {
        NodeWriteGuard::at(self.position())
    }
}

impl<'s> IntoWriteGuard for &'s NodeOwnedGuard {
    open spec fn write_slot(&self) -> usize {
        self.slot()
    }

    fn into_write_guard(self) -> (guard: NodeWriteGuard) {
        NodeWriteGuard::at(self.position())
    }
}

impl IntoWriteGuard for TreeWriteTraverser {
    open spec fn write_slot(&self) -> usize {
        self.slot()
    }

    fn into_write_guard(self) -> (guard: NodeWriteGuard) {
        NodeWriteGuard::at(self.position())
    }
}

impl<'s> IntoWriteGuard for &'s TreeWriteTraverser {
    open spec fn write_slot(&self) -> usize {
        self.slot()
    }

    fn into_write_guard(self) -> (guard: NodeWriteGuard) {
        NodeWriteGuard::at(self.position())
    }
}

} // verus!
