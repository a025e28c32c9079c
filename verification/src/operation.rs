//! The operation: a bounded span of changes to a tree, at whose end the
//! garbage that the changes left is collected.

use crate::guard::{NodeOwnedGuard, NodeWriteGuard};
use crate::model::TreeView;
use crate::node::{InvalidBranchIndex, NodeIndex, ParentId};
use crate::read::NodeReadGuard;
use crate::traverse::TreeWriteTraverser;
use crate::tree::{DebugNodes, Tree};
use vstd::prelude::*;

verus! {

/// Exclusive access to a tree for a span of changes.
///
/// The changes leave garbage behind: slots whose nodes were displaced or
/// consumed. [`TreeOperation::finish_and_gc`] ends the operation and
/// collects the garbage.
pub struct TreeOperation<'tree, T, const B: usize> {
    pub tree: &'tree mut Tree<T, B>,
    /// Keeps an operation on the thread that began it.
    pub thread_bound: core::marker::PhantomData<std::rc::Rc<()>>,
}

impl<'tree, T, const B: usize> View for TreeOperation<'tree, T, B> {
    type V = TreeView<T>;

    open spec fn view(&self) -> TreeView<T> {
        self.tree@
    }
}

impl<'tree, T, const B: usize> TreeOperation<'tree, T, B> {
    /// The tree as it is now.
    pub open spec fn current(&self) -> Tree<T, B> {
        *self.tree
    }

    /// The invariant of the tree holds.
    pub open spec fn wf(&self) -> bool {
        self.tree.wf()
    }

    /// The heights of the slots of the tree.
    pub open spec fn heights(&self) -> Seq<nat> {
        self.tree.heights()
    }

    /// Mutable access to the element of the node at `i`. Nothing else can
    /// change through the result.
    pub(crate) fn elem_mut_at(&mut self, i: usize) -> (elem: &mut T)
        requires
            old(self).wf(),
            old(self)@.is_present(i as int),
        ensures
            *elem == old(self)@.elem(i as int),
            final(self)@ == old(self)@.set_elem(i as int, *final(elem)),
            final(self).heights() == old(self).heights(),
            final(self).wf(),
            *final(final(self).tree) == *final(old(self).tree),
    {
        proof {
            let v = self@;
            let h = self.heights();
            assert forall|x: T|
                (#[trigger] v.set_elem(i as int, x)).wf(B as nat) && v.set_elem(i as int, x).ranked(
                    h,
                ) by {
                v.lemma_set_elem_wf(i as int, x, B as nat);
                v.lemma_set_elem_ranked(h, i as int, x);
            }
        }
        self.tree.elem_at_mut(i)
    }

    /// A guard for writing to the root, if the tree has a root.
    pub fn write_root(&self) -> (guard: Option<NodeWriteGuard>)
        requires
            self.wf(),
        ensures
            match self@.root {
                Some(r) => guard is Some && guard.unwrap().slot() == r && guard.unwrap().wf(self),
                None => guard is None,
            },
    {
        match self.tree.root_index() {
            Some(r) => Some(NodeWriteGuard::at(r)),
            None => None,
        }
    }

    /// Detaches the root, if the tree has a root. The tree is left without
    /// a root, and the guard owns what was the tree.
    pub fn take_root(&mut self) -> (guard: Option<NodeOwnedGuard>)
        requires
            old(self).wf(),
        ensures
            final(self).wf(),
            final(self)@ == old(self)@.take_root(),
            final(self).heights() == old(self).heights(),
            match old(self)@.root {
                Some(r) => guard is Some && guard.unwrap().slot() == r && guard.unwrap().wf(
                    final(self),
                ),
                None => guard is None,
            },
            *final(final(self).tree) == *final(old(self).tree),
    {
        proof {
            self@.lemma_take_root_wf(B as nat);
            self@.lemma_take_root_ranked(self.heights(), B as nat);
        }
        match self.tree.root_index() {
            Some(r) => {
                self.tree.set_tag(r, ParentId::Detached);
                self.tree.set_root(None);
                Some(NodeOwnedGuard::at(r))
            },
            None => None,
        }
    }

    /// Turns the root, if there is one, into garbage.
    fn delete_root(&mut self) -> (deleted: bool)
        requires
            old(self).tree.shape(),
            old(self)@.root_ok(),
        ensures
            final(self).tree.shape(),
            final(self)@ == old(self)@.delete_root(),
            final(self).heights() == old(self).heights(),
            deleted == old(self)@.root is Some,
            *final(final(self).tree) == *final(old(self).tree),
    {
        match self.tree.root_index() {
            Some(r) => {
                let _ = self.tree.discard(r);
                true
            },
            None => false,
        }
    }

    /// Turns the child at `branch` of the slot at `n`, if there is one,
    /// into garbage.
    pub(crate) fn delete_child(&mut self, n: usize, branch: usize) -> (deleted: bool)
        requires
            old(self).tree.shape(),
            n < old(self)@.slots.len(),
            branch < B,
            old(self)@.slots[n as int].children().len() == B,
            old(self)@.link_ok(n as int, branch as int),
        ensures
            final(self).tree.shape(),
            final(self)@ == old(self)@.delete_child(n as int, branch as int),
            final(self).heights() == old(self).heights(),
            deleted == old(self)@.child(n as int, branch as int) is Some,
            *final(final(self).tree) == *final(old(self).tree),
    {
        match self.tree.node_at(n).child(branch).index {
            Some(c) => {
                let _ = self.tree.discard(c);
                true
            },
            None => false,
        }
    }

    /// Detaches the node at `i` from what owns it.
    pub(crate) fn detach_at(&mut self, i: usize) -> (guard: NodeOwnedGuard)
        requires
            old(self).wf(),
            old(self)@.is_present(i as int),
            old(self)@.tag(i as int) != ParentId::Detached,
        ensures
            final(self).wf(),
            final(self)@ == old(self)@.detach(i as int),
            final(self).heights() == old(self).heights(),
            guard.slot() == i,
            guard.wf(final(self)),
            *final(final(self).tree) == *final(old(self).tree),
    {
        proof {
            self@.lemma_detach_wf(i as int, B as nat);
            self@.lemma_detach_ranked(self.heights(), i as int, B as nat);
            assert(self@.tag_ok(i as int));
        }
        match self.tree.node_at(i).parent() {
            ParentId::Attached { parent_index, this_branch } => {
                self.tree.set_tag(i, ParentId::Detached);
                self.tree.set_child(parent_index, this_branch, None);
            },
            ParentId::Root => {
                self.tree.set_tag(i, ParentId::Detached);
                self.tree.set_root(None);
            },
            _ => {},
        }
        NodeOwnedGuard::at(i)
    }

    /// Detaches the child at `branch` of the node at `n`, if there is one.
    pub(crate) fn take_child_at(&mut self, n: usize, branch: usize) -> (child: Result<
        Option<NodeOwnedGuard>,
        InvalidBranchIndex,
    >)
        requires
            old(self).wf(),
            old(self)@.is_present(n as int),
        ensures
            final(self).wf(),
            final(self).heights() == old(self).heights(),
            branch >= B ==> child == Err::<Option<NodeOwnedGuard>, InvalidBranchIndex>(
                InvalidBranchIndex(branch),
            ) && final(self)@ == old(self)@,
            branch < B ==> child is Ok && final(self)@ == old(self)@.take_child(
                n as int,
                branch as int,
            ) && match old(self)@.child(n as int, branch as int) {
                Some(c) => child.unwrap() is Some && child.unwrap().unwrap().slot() == c
                    && child.unwrap().unwrap().wf(final(self)),
                None => child.unwrap() is None,
            },
            *final(final(self).tree) == *final(old(self).tree),
    {
        if branch >= B {
            return Err(InvalidBranchIndex(branch));
        }
        proof {
            let v = self@;
            v.lemma_take_child_wf(n as int, branch as int, B as nat);
            v.lemma_take_child_ranked(self.heights(), n as int, branch as int, B as nat);
            assert(v.slots[n as int].children().len() == B);
            assert(v.link_ok(n as int, branch as int));
        }
        match self.tree.node_at(n).child(branch).index {
            Some(c) => {
                self.tree.set_tag(c, ParentId::Detached);
                self.tree.set_child(n, branch, None);
                Ok(Some(NodeOwnedGuard::at(c)))
            },
            None => Ok(None),
        }
    }

    /// Makes a new node with element `elem` the root. Returns whether the
    /// tree had a root; that root and all below it become garbage.
    pub fn put_root_elem(&mut self, elem: T) -> (displaced: bool)
        requires
            old(self).wf(),
            old(self)@.slots.len() < usize::MAX,
        ensures
            final(self).wf(),
            final(self)@ == old(self)@.put_root_elem(elem, B as nat),
            final(self).heights() == old(self).heights().push(0),
            displaced == old(self)@.root is Some,
            *final(final(self).tree) == *final(old(self).tree),
    {
        proof {
            self@.lemma_put_root_elem_wf(elem, B as nat);
            self@.lemma_put_root_elem_ranked(self.heights(), elem, B as nat);
        }
        let i = self.tree.append(elem, ParentId::Root);
        let displaced = self.delete_root();
        self.tree.set_root(Some(i));
        displaced
    }

    /// Makes a detached subtree the root. Returns whether the tree had a
    /// root; that root and all below it become garbage.
    pub fn put_root_tree(&mut self, subtree: NodeOwnedGuard) -> (displaced: bool)
        requires
            old(self).wf(),
            subtree.wf(old(self)),
        ensures
            final(self).wf(),
            final(self)@ == old(self)@.put_root_tree(subtree.slot() as int),
            final(self).heights() == old(self).heights(),
            displaced == old(self)@.root is Some,
            *final(final(self).tree) == *final(old(self).tree),
    {
        proof {
            self@.lemma_put_root_tree_wf(subtree.slot() as int, B as nat);
            self@.lemma_put_root_tree_ranked(self.heights(), subtree.slot() as int, B as nat);
        }
        let s = subtree.position();
        let displaced = self.delete_root();
        self.tree.set_root(Some(s));
        self.tree.set_tag(s, ParentId::Root);
        displaced
    }

    /// A traverser that starts at the root, if the tree has a root.
    pub fn traverse_root(&self) -> (traverser: Option<TreeWriteTraverser>)
        requires
            self.wf(),
        ensures
            match self@.root {
                Some(r) => traverser is Some && traverser.unwrap().slot() == r
                    && traverser.unwrap().wf(self),
                None => traverser is None,
            },
    {
        match self.tree.root_index() {
            Some(r) => Some(TreeWriteTraverser::at(r)),
            None => None,
        }
    }

    /// A traverser that starts at the node that `index` names, if it names
    /// a node.
    pub fn traverse_from(&self, index: NodeIndex) -> (traverser: Option<TreeWriteTraverser>)
        requires
            self.wf(),
        ensures
            match traverser {
                Some(t) => self@.is_present(index.index as int) && t.slot() == index.index
                    && t.wf(self),
                None => !self@.is_present(index.index as int),
            },
    {
        if index.index < self.tree.slot_count() && self.tree.node_at(index.index).is_present() {
            Some(TreeWriteTraverser::at(index.index))
        } else {
            None
        }
    }

    /// Makes a new node with element `elem`, as a detached subtree of its
    /// own.
    pub fn new_detached(&mut self, elem: T) -> (guard: NodeOwnedGuard)
        requires
            old(self).wf(),
            old(self)@.slots.len() < usize::MAX,
        ensures
            final(self).wf(),
            final(self)@ == old(self)@.new_detached(elem, B as nat),
            final(self).heights() == old(self).heights().push(0),
            guard.slot() == old(self)@.slots.len(),
            guard.wf(final(self)),
            *final(final(self).tree) == *final(old(self).tree),
    {
        proof {
            self@.lemma_new_detached_wf(elem, B as nat);
            self@.lemma_new_detached_ranked(self.heights(), elem, B as nat);
        }
        let i = self.tree.append(elem, ParentId::Detached);
        NodeOwnedGuard::at(i)
    }

    /// A view of the slots of the backing store, for inspection.
    pub fn debug_nodes(&self) -> (nodes: DebugNodes<'_, T, B>)
        ensures
            nodes@ == self@.slots,
            self.current().shape() ==> nodes.wf(),
    {
        self.tree.debug_nodes()
    }

    /// A guard for reading the root, if the tree has a root.
    pub fn read_root(&self) -> (guard: Option<NodeReadGuard<'_, T, B>>)
        requires
            self.wf(),
        ensures
            match self@.root {
                Some(r) => guard is Some && guard.unwrap().slot() == r && guard.unwrap().wf()
                    && guard.unwrap().tree() == self.current(),
                None => guard is None,
            },
    {
        self.tree.read_root()
    }

    /// Ends the operation and collects the garbage; a subtree that is
    /// still detached is garbage too. Every slot that is left holds a node
    /// of the tree; the nodes keep their elements, their owners and their
    /// children, at positions that may have changed.
    pub fn finish_and_gc(self)
        requires
            self.wf(),
        ensures
            final(self.tree).wf(),
            final(self.tree)@.is_clean(),
            final(self.tree)@.relocated_from(self@, B as nat),
            final(self.tree)@.slots.len() <= self@.slots.len(),
            final(self.tree)@.slots.len() == self@.in_tree().len(),
    {
        self.tree.garbage_collect();
    }
}

} // verus!
