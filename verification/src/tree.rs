//! The tree: a backing store of slots, the position of the root, and the
//! queue of slots that wait for removal.

use crate::model::TreeView;
use crate::node::{ChildId, Node, ParentId, Slot};
use crate::operation::TreeOperation;
use crate::read::{NodeReadGuard, TreeReadTraverser};
use crate::pinned_vec::PinnedVec;
use vstd::prelude::*;

verus! {

/// The number of slots that each segment of a tree's backing store holds.
pub const EXTENSION_SIZE: usize = 6;

/// A rooted tree whose nodes hold an element of type `T` and up to `B`
/// children each.
///
/// All nodes live in one backing store and name each other by position.
/// The tree is read through [`Tree::read_root`] and changed through the
/// operation that [`Tree::operation`] begins.
pub struct Tree<T, const B: usize> {
    nodes: PinnedVec<Node<T, B>>,
    root: Option<usize>,
    garbage: Vec<usize>,
    detached: Vec<usize>,
    heights: Ghost<Seq<nat>>,
}

/// The slots of a tree's backing store, borrowed for inspection.
pub struct DebugNodes<'a, T, const B: usize> {
    nodes: &'a PinnedVec<Node<T, B>>,
}

impl<'a, T, const B: usize> View for DebugNodes<'a, T, B> {
    type V = Seq<Slot<T>>;

    closed spec fn view(&self) -> Seq<Slot<T>> {
        Seq::new(self.nodes@.len(), |i: int| self.nodes@[i]@)
    }
}

/// The number of nodes among the first `n` of `slots`.
pub open spec fn present_among<T>(slots: Seq<Slot<T>>, n: nat) -> nat
    decreases n,
{
    if n == 0 {
        0
    } else {
        present_among(slots, (n - 1) as nat) + if slots[n - 1] is Present {
            1nat
        } else {
            0nat
        }
    }
}

/// There are no more nodes among the first `n` slots than `n`.
pub proof fn lemma_present_among_bound<T>(slots: Seq<Slot<T>>, n: nat)
    ensures
        present_among(slots, n) <= n,
    decreases n,
{
    if n > 0 {
        lemma_present_among_bound(slots, (n - 1) as nat);
    }
}

impl<'a, T, const B: usize> DebugNodes<'a, T, B> {
    /// The backing store is well formed.
    pub closed spec fn wf(&self) -> bool {
        self.nodes.wf()
    }

    /// The number of slots.
    pub fn len(&self) -> (n: usize)
        requires
            self.wf(),
        ensures
            n == self@.len(),
    {
        self.nodes.len()
    }

    /// The number of slots that hold a node.
    pub fn present_count(&self) -> (n: usize)
        requires
            self.wf(),
        ensures
            n == present_among(self@, self@.len()),
    {
        let len = self.nodes.len();
        let mut n: usize = 0;
        let mut i: usize = 0;
        while i < len
            invariant
                self.wf(),
                len == self@.len(),
                i <= len,
                n == present_among(self@, i as nat),
                n <= i,
            decreases len - i,
        {
            let present = match self.nodes.index(i) {
                Ok(node) => node.is_present(),
                Err(_) => false,
            };
            if present {
                n = n + 1;
            }
            i = i + 1;
        }
        n
    }

    /// The number of slots that hold garbage.
    pub fn garbage_count(&self) -> (n: usize)
        requires
            self.wf(),
        ensures
            n == self@.len() - present_among(self@, self@.len()),
    {
        proof {
            lemma_present_among_bound(self@, self@.len());
        }
        self.nodes.len() - self.present_count()
    }

    /// The parent tag of the slot at `i`, if the slot holds a node.
    pub fn parent(&self, i: usize) -> (tag: Option<ParentId>)
        requires
            self.wf(),
        ensures
            tag == if i < self@.len() && self@[i as int] is Present {
                Some(self@[i as int]->parent)
            } else {
                None
            },
    {
        match self.nodes.index(i) {
            Ok(node) => if node.is_present() {
                Some(node.parent())
            } else {
                None
            },
            Err(_) => None,
        }
    }

    /// The child reference at `branch` of the slot at `i`, if there is
    /// such a slot and such a branch.
    pub fn child(&self, i: usize, branch: usize) -> (child: Option<ChildId>)
        requires
            self.wf(),
        ensures
            child == if i < self@.len() && branch < B {
                Some(self@[i as int].children()[branch as int])
            } else {
                None
            },
    {
        if branch >= B {
            return None;
        }
        match self.nodes.index(i) {
            Ok(node) => Some(node.child(branch)),
            Err(_) => None,
        }
    }
}

impl<T, const B: usize> View for Tree<T, B> {
    type V = TreeView<T>;

    closed spec fn view(&self) -> TreeView<T> {
        TreeView {
            slots: Seq::new(self.nodes@.len(), |i: int| self.nodes@[i]@),
            root: self.root,
            pending: self.garbage@,
        }
    }
}

impl<T, const B: usize> Tree<T, B> {
    /// A height for every slot, greater than the heights of the slot's
    /// children. The heights witness that no node lies above itself.
    pub closed spec fn heights(&self) -> Seq<nat> {
        self.heights@
    }

    /// The positions that the tree has noted as roots of detached subtrees.
    pub closed spec fn noted(&self) -> Seq<usize> {
        self.detached@
    }

    /// The backing store is well formed, and the tree has kept track of
    /// every node that is the root of a detached subtree.
    pub closed spec fn shape(&self) -> bool {
        &&& self.nodes.wf()
        &&& forall|i: int|
            self@.is_detached(i) ==> #[trigger] self.detached@.contains(i as usize)
    }

    /// The invariant of a tree: the store invariant for branch factor `B`,
    /// no tag of garbage collection, and no node above itself.
    pub open spec fn wf(&self) -> bool {
        &&& self.shape()
        &&& self@.wf(B as nat)
        &&& self@.ranked(self.heights())
    }

    /// An empty tree.
    pub fn new() -> (tree: Self)
        ensures
            tree.wf(),
            tree@ == TreeView::<T>::empty(),
    {
        let tree = Tree {
            nodes: PinnedVec::new(EXTENSION_SIZE),
            root: None,
            garbage: Vec::new(),
            detached: Vec::new(),
            heights: Ghost(Seq::empty()),
        };
        assert(tree@ =~= TreeView::<T>::empty());
        tree
    }

    /// A view of the slots of the backing store, for inspection.
    pub fn debug_nodes(&self) -> (nodes: DebugNodes<'_, T, B>)
        ensures
            nodes@ == self@.slots,
            self.shape() ==> nodes.wf(),
    {
        let nodes = DebugNodes { nodes: &self.nodes };
        assert(nodes@ =~= self@.slots);
        nodes
    }

    /// A guard for reading the root, if the tree has a root.
    pub fn read_root<'tree>(&'tree self) -> (guard: Option<NodeReadGuard<'tree, T, B>>)
        requires
            self.wf(),
        ensures
            match self@.root {
                Some(r) => guard is Some && guard.unwrap().slot() == r && guard.unwrap().wf()
                    && guard.unwrap().tree() == *self,
                None => guard is None,
            },
    {
        match self.root {
            Some(r) => Some(NodeReadGuard::new(self, r)),
            None => None,
        }
    }

    /// A read traverser that starts at the root, if the tree has a root.
    pub fn traverse_read_root<'tree>(&'tree self) -> (traverser: Option<
        TreeReadTraverser<'tree, T, B>,
    >)
        requires
            self.wf(),
        ensures
            match self@.root {
                Some(r) => traverser is Some && traverser.unwrap().slot() == r
                    && traverser.unwrap().wf() && *traverser.unwrap().tree == *self,
                None => traverser is None,
            },
    {
        match self.root {
            Some(r) => Some(TreeReadTraverser::new(self, r)),
            None => None,
        }
    }

    /// Begins an operation, through which the tree can be changed.
    pub fn operation<'tree>(&'tree mut self) -> (op: TreeOperation<'tree, T, B>)
        ensures
            *op.tree == *old(self),
            *final(op.tree) == *final(self),
    {
        TreeOperation { tree: self, thread_bound: core::marker::PhantomData }
    }

    /// Gathers the backing store into one segment and gives back the memory
    /// that it has reserved beyond its slots. The tree stays as it is.
    pub fn shrink_to_fit(&mut self)
        requires
            old(self).shape(),
        ensures
            final(self).shape(),
            final(self)@ == old(self)@,
            final(self).heights() == old(self).heights(),
            final(self).segments() == 1,
    {
        self.nodes.shrink_to_fit();
        assert(self@ =~= old(self)@);
    }

    /// The number of segments that the backing store is made of.
    pub closed spec fn segments(&self) -> nat {
        self.nodes.segments()
    }

    /// A tree has no more slots than a `usize` counts.
    pub proof fn lemma_len_fits(&self)
        requires
            self.shape(),
        ensures
            self@.slots.len() <= usize::MAX,
    {
        self.nodes.lemma_len_fits();
    }

    /// The number of slots.
    pub(crate) fn slot_count(&self) -> (n: usize)
        requires
            self.shape(),
        ensures
            n == self@.slots.len(),
    {
        self.nodes.len()
    }

    /// The position of the root's slot.
    pub(crate) fn root_index(&self) -> (root: Option<usize>)
        ensures
            root == self@.root,
    {
        self.root
    }

    /// The slot at `i`.
    pub(crate) fn node_at(&self, i: usize) -> (node: &Node<T, B>)
        requires
            self.shape(),
            i < self@.slots.len(),
        ensures
            node@ == self@.slots[i as int],
    {
        match self.nodes.index(i) {
            Ok(node) => node,
            Err(_) => vstd::pervasive::unreached(),
        }
    }

    /// Mutable access to the element at `i`.
    pub(crate) fn elem_at_mut(&mut self, i: usize) -> (elem: &mut T)
        requires
            old(self).shape(),
            old(self)@.is_present(i as int),
        ensures
            *elem == old(self)@.elem(i as int),
            final(self)@ =~= old(self)@.set_elem(i as int, *final(elem)),
            final(self).heights() == old(self).heights(),
            final(self).shape(),
    {
        match self.nodes.index_mut(i) {
            Ok(node) => node.elem_mut(),
            Err(_) => vstd::pervasive::unreached(),
        }
    }

    /// Replaces the parent tag at `i`.
    pub(crate) fn set_tag(&mut self, i: usize, tag: ParentId)
        requires
            old(self).shape(),
            old(self)@.is_present(i as int),
        ensures
            final(self)@ == old(self)@.set_tag(i as int, tag),
            final(self).heights() == old(self).heights(),
            final(self).shape(),
    {
        match self.nodes.index_mut(i) {
            Ok(node) => {
                node.set_parent(tag);
            },
            Err(_) => {},
        }
        assert(self@.slots =~= old(self)@.set_tag(i as int, tag).slots);
        if let ParentId::Detached = tag {
            proof {
                crate::model::lemma_push_contains(self.detached@, i);
            }
            self.detached.push(i);
        }
    }

    /// Replaces the child reference at branch `k` of slot `p`.
    pub(crate) fn set_child(&mut self, p: usize, k: usize, child: Option<usize>)
        requires
            old(self).shape(),
            p < old(self)@.slots.len(),
            k < B,
        ensures
            final(self)@ == old(self)@.set_child(p as int, k as int, child),
            final(self).heights() == old(self).heights(),
            final(self).shape(),
    {
        match self.nodes.index_mut(p) {
            Ok(node) => {
                node.set_child(k, ChildId { index: child });
            },
            Err(_) => {},
        }
        assert(self@.slots =~= old(self)@.set_child(p as int, k as int, child).slots);
    }

    /// Replaces the root position.
    pub(crate) fn set_root(&mut self, root: Option<usize>)
        ensures
            final(self)@ == old(self)@.set_root(root),
            final(self).heights() == old(self).heights(),
            old(self).shape() ==> final(self).shape(),
    {
        self.root = root;
    }

    /// Takes the element out of the node at `i` and lets the slot wait for
    /// removal.
    pub(crate) fn discard(&mut self, i: usize) -> (elem: T)
        requires
            old(self).shape(),
            old(self)@.is_present(i as int),
        ensures
            elem == old(self)@.elem(i as int),
            final(self)@ == old(self)@.discard(i as int),
            final(self).heights() == old(self).heights(),
            final(self).noted() == old(self).noted(),
            final(self).shape(),
    {
        let elem = match self.nodes.index_mut(i) {
            Ok(node) => node.take_elem_become_garbage(),
            Err(_) => vstd::pervasive::unreached(),
        };
        self.garbage.push(i);
        assert(self@.slots =~= old(self)@.discard(i as int).slots);
        elem
    }

    /// Appends a node without children and returns its position. The new
    /// slot gets height 0.
    pub(crate) fn append(&mut self, elem: T, tag: ParentId) -> (i: usize)
        requires
            old(self).shape(),
            old(self)@.slots.len() < usize::MAX,
        ensures
            i == old(self)@.slots.len(),
            final(self)@ == old(self)@.append(elem, tag, B as nat),
            final(self).heights() == old(self).heights().push(0),
            final(self).shape(),
    {
        let i = self.nodes.len();
        self.nodes.push(Node::new(elem, tag));
        self.heights = Ghost(self.heights@.push(0));
        assert(self@.slots =~= old(self)@.append(elem, tag, B as nat).slots);
        if let ParentId::Detached = tag {
            proof {
                crate::model::lemma_push_contains(self.detached@, i);
            }
            self.detached.push(i);
        }
        i
    }

    /// Replaces the heights.
    pub(crate) fn set_heights(&mut self, heights: Ghost<Seq<nat>>)
        ensures
            final(self)@ == old(self)@,
            final(self).heights() == heights@,
            old(self).shape() ==> final(self).shape(),
    {
        self.heights = heights;
    }

    /// Gives the children of the slot at `g` the tag of garbage collection
    /// and lets them wait for removal.
    fn mark_children(&mut self, g: usize)
        requires
            old(self).shape(),
            old(self)@.owns_children(g as int, B as nat),
        ensures
            final(self).shape(),
            final(self)@.slots == old(self)@.children_marked(g as int, B as int),
            final(self)@.root == old(self)@.root,
            final(self).heights() == old(self).heights(),
            forall|x: usize| old(self)@.pending.contains(x) ==> final(self)@.pending.contains(x),
            forall|i: int|
                0 <= i < old(self)@.slots.len() && #[trigger] old(self)@.is_child_below(
                    i,
                    g as int,
                    B as int,
                ) ==> final(self)@.pending.contains(i as usize),
    {
        let ghost start = self@;
        let mut k: usize = 0;
        proof {
            self.lemma_len_fits();
        }
        assert(self@.slots =~= start.children_marked(g as int, 0));
        while k < B
            invariant
                k <= B,
                self.shape(),
                start.slots.len() <= usize::MAX,
                start.owns_children(g as int, B as nat),
                self@.slots == start.children_marked(g as int, k as int),
                self@.root == start.root,
                self.heights() == old(self).heights(),
                forall|x: usize| start.pending.contains(x) ==> self@.pending.contains(x),
                forall|i: int|
                    0 <= i < start.slots.len() && #[trigger] start.is_child_below(
                        i,
                        g as int,
                        k as int,
                    ) ==> self@.pending.contains(i as usize),
            decreases B - k,
        {
            let ghost before = self@;
            let child = self.node_at(g).child(k);
            assert(start.link_ok(g as int, k as int));
            assert(child.index == start.child(g as int, k as int));
            if let Some(c) = child.index {
                self.set_tag(c, ParentId::Garbage);
                self.garbage.push(c);
                proof {
                    crate::model::lemma_push_contains(before.pending, c);
                }
            }
            proof {
                assert forall|i: int| 0 <= i < start.slots.len() implies self@.slots[i]
                    == start.children_marked(g as int, k + 1)[i] by {
                    assert(before.slots[i] == start.children_marked(g as int, k as int)[i]);
                    if start.is_child_below(i, g as int, B as int) {
                        assert(start.child(g as int, start.tag(i)->this_branch as int) == Some(
                            i as usize,
                        ));
                    }
                    if child.index is Some {
                        assert(start.is_present(child.index.unwrap() as int));
                    }
                }
                assert(self@.slots =~= start.children_marked(g as int, k + 1));
                assert forall|i: int|
                    0 <= i < start.slots.len() && #[trigger] start.is_child_below(
                        i,
                        g as int,
                        k + 1,
                    ) implies self@.pending.contains(i as usize) by {
                    if start.is_child_below(i, g as int, k as int) {
                    } else {
                        assert(start.is_child_below(i, g as int, B as int));
                    }
                }
            }
            k = k + 1;
        }
    }

    /// Tags the children of the slot at `from` as children of `to`.
    fn move_children(&mut self, from: usize, to: usize)
        requires
            old(self).shape(),
            old(self)@.owns_children(from as int, B as nat),
        ensures
            final(self).shape(),
            final(self)@.slots == old(self)@.children_moved(from as int, to as int, B as int),
            final(self)@.root == old(self)@.root,
            final(self)@.pending == old(self)@.pending,
            final(self).heights() == old(self).heights(),
    {
        let ghost start = self@;
        let mut k: usize = 0;
        proof {
            self.lemma_len_fits();
        }
        assert(self@.slots =~= start.children_moved(from as int, to as int, 0));
        while k < B
            invariant
                k <= B,
                self.shape(),
                start.slots.len() <= usize::MAX,
                start.owns_children(from as int, B as nat),
                self@.slots == start.children_moved(from as int, to as int, k as int),
                self@.root == start.root,
                self@.pending == start.pending,
                self.heights() == old(self).heights(),
            decreases B - k,
        {
            let ghost before = self@;
            let child = self.node_at(from).child(k);
            assert(start.link_ok(from as int, k as int));
            assert(child.index == start.child(from as int, k as int));
            if let Some(c) = child.index {
                self.set_tag(c, ParentId::Attached { parent_index: to, this_branch: k });
            }
            proof {
                assert forall|i: int| 0 <= i < start.slots.len() implies self@.slots[i]
                    == start.children_moved(from as int, to as int, k + 1)[i] by {
                    assert(before.slots[i] == start.children_moved(
                        from as int,
                        to as int,
                        k as int,
                    )[i]);
                    if start.is_child_below(i, from as int, B as int) {
                        assert(start.child(from as int, start.tag(i)->this_branch as int) == Some(
                            i as usize,
                        ));
                    }
                    if child.index is Some {
                        assert(start.is_present(child.index.unwrap() as int));
                    }
                }
                assert(self@.slots =~= start.children_moved(from as int, to as int, k + 1));
            }
            k = k + 1;
        }
    }

    /// Removes the dead slot at `g`. Its children are marked and wait for
    /// removal; the last slot takes its place, and what named the last slot
    /// names `g` from then on.
    fn collect_slot(&mut self, g: usize)
        requires
            old(self).shape(),
            old(self)@.linked(B as nat),
            old(self)@.ranked(old(self).heights()),
            old(self)@.no_detached(),
            g < old(self)@.slots.len(),
            old(self)@.slots[g as int].is_dead(),
        ensures
            final(self).shape(),
            final(self)@.slots == old(self)@.collected(g as int, B as nat).slots,
            final(self)@.root == old(self)@.collected(g as int, B as nat).root,
            final(self).heights() == old(self)@.heights_collected(old(self).heights(), g as int),
            forall|x: usize| old(self)@.pending.contains(x) ==> final(self)@.pending.contains(x),
            forall|i: int|
                0 <= i < old(self)@.slots.len() && #[trigger] old(self)@.is_child_below(
                    i,
                    g as int,
                    B as int,
                ) ==> final(self)@.pending.contains(i as usize),
            g < final(self)@.slots.len() && final(self)@.slots[g as int].is_dead() ==> final(self)@.pending.contains(g),
    {
        let ghost start = self@;
        let ghost marked = start.with_slots(start.children_marked(g as int, B as int));
        proof {
            self.lemma_len_fits();
            start.lemma_owns_children(g as int, B as nat);
        }
        self.mark_children(g);
        let last = self.nodes.len() - 1;
        if g != last {
            proof {
                start.lemma_marked_owns_children(g as int, last as int, B as nat);
                assert(self@.slots == marked.slots);
                assert(self@.owns_children(last as int, B as nat)) by {
                    assert forall|k: int| 0 <= k < B implies #[trigger] self@.link_ok(
                        last as int,
                        k,
                    ) by {
                        assert(marked.link_ok(last as int, k));
                    }
                    assert forall|i: int|
                        0 <= i < self@.slots.len() && #[trigger] self@.is_child_below(
                            i,
                            last as int,
                            B as int,
                        ) implies self@.child(last as int, self@.tag(i)->this_branch as int)
                        == Some(i as usize) by {
                        assert(marked.is_child_below(i, last as int, B as int));
                    }
                }
                assert(self@.children_moved(last as int, g as int, B as int)
                    =~= marked.children_moved(last as int, g as int, B as int));
            }
            self.move_children(last, g);
            let ghost moved = marked.with_slots(
                marked.children_moved(last as int, g as int, B as int),
            );
            assert(self@.slots == moved.slots);
            proof {
                assert(start.tag_ok(last as int));
                assert(start.slots[last as int].children().len() == B);
            }
            let node = self.node_at(last);
            if !node.is_dead() {
                match node.parent() {
                    ParentId::Attached { parent_index, this_branch } => {
                        self.set_child(parent_index, this_branch, Some(g));
                    },
                    ParentId::Root => {
                        self.root = Some(g);
                    },
                    _ => {},
                }
            }
            assert(self@.slots == moved.owner_moved(last as int, g as int).slots);
            assert(self@.root == moved.owner_moved(last as int, g as int).root);
        }
        let ghost ready = start.prepared(g as int, B as nat);
        assert(self@.slots == ready.slots);
        assert(self@.root == ready.root);
        let ghost before = self@;
        let _ = self.nodes.swap_remove(g);
        self.heights = Ghost(start.heights_collected(self.heights@, g as int));
        assert(self@.slots =~= ready.slot_removed(g as int));
        proof {
            let after = start.collected(g as int, B as nat);
            start.lemma_collected_linked(old(self).heights(), g as int, B as nat);
            assert forall|i: int| !self@.is_detached(i) by {
                if self@.is_detached(i) {
                    assert(after.slots[i] is Present ==> after.tag(i) != ParentId::Detached);
                }
            }
        }
        if g != last {
            let dead = self.node_at(g).is_dead();
            if dead {
                self.garbage.push(g);
                proof {
                    crate::model::lemma_push_contains(before.pending, g);
                }
            }
        }
    }

    /// Turns every node that is still the root of a detached subtree into
    /// garbage.
    fn drop_detached(&mut self)
        requires
            old(self).wf(),
        ensures
            final(self).wf(),
            final(self)@.no_detached(),
            final(self)@.slots.len() == old(self)@.slots.len(),
            final(self)@.kept_from(
                old(self)@,
                Seq::new(old(self)@.slots.len(), |i: int| i),
                B as nat,
            ),
    {
        let ghost start = self@;
        let ghost origin = Seq::new(start.slots.len(), |i: int| i);
        proof {
            start.lemma_kept_from_self(B as nat);
        }
        while self.detached.len() > 0
            invariant
                self.wf(),
                self@.slots.len() == start.slots.len(),
                self@.kept_from(start, origin, B as nat),
            decreases self.detached.len(),
        {
            let i = self.detached[self.detached.len() - 1];
            let ghost listed = self.detached@;
            let detached = i < self.nodes.len() && match self.node_at(i) {
                Node::Present { parent: ParentId::Detached, .. } => true,
                _ => false,
            };
            if detached {
                proof {
                    self@.lemma_discard_wf(i as int, B as nat);
                    self@.lemma_discard_ranked(self.heights(), i as int, B as nat);
                    self@.lemma_discard_kept(start, origin, i as int, B as nat);
                }
                let _ = self.discard(i);
            }
            let _ = self.detached.pop();
            proof {
                assert forall|j: int| self@.is_detached(j) implies #[trigger] self.detached@.contains(
                    j as usize,
                ) by {
                    assert(listed.contains(j as usize));
                    let w = choose|w: int| 0 <= w < listed.len() && listed[w] == j as usize;
                    assert(self.detached@[w] == j as usize);
                }
            }
        }
        proof {
            assert forall|j: int|
                0 <= j < self@.slots.len() && (#[trigger] self@.slots[j]) is Present implies self@.tag(
                j,
            ) != ParentId::Detached by {
                if self@.is_detached(j) {
                    assert(self.detached@.contains(j as usize));
                }
            }
        }
    }

    /// Removes every dead slot: the slots that wait for removal, and all
    /// that lies below them. A node that is still the root of a detached
    /// subtree is dead too. The nodes that stay may change their
    /// positions; they keep their elements, their owners and their
    /// children, and the root stays the root.
    pub fn garbage_collect(&mut self)
        requires
            old(self).wf(),
        ensures
            final(self).wf(),
            final(self)@.is_clean(),
            final(self)@.relocated_from(old(self)@, B as nat),
            final(self)@.slots.len() <= old(self)@.slots.len(),
            final(self)@.slots.len() == old(self)@.in_tree().len(),
    {
        let ghost start = self@;
        self.drop_detached();
        let ghost dropped = self@;
        self.nodes.compress();
        assert(self@ =~= dropped);
        let ghost mut origin: Seq<int> = Seq::new(start.slots.len(), |i: int| i);
        while self.garbage.len() > 0
            invariant
                self.shape(),
                self@.inv(B as nat),
                self@.ranked(self.heights()),
                self@.no_detached(),
                self@.kept_from(start, origin, B as nat),
                self@.slots.len() <= start.slots.len(),
            decreases self@.slots.len(), self@.pending.len(),
        {
            let ghost before = self@;
            let ghost h = self.heights();
            let g = match self.garbage.pop() {
                Some(g) => g,
                None => vstd::pervasive::unreached(),
            };
            let ghost popped = self@;
            assert(popped.slots == before.slots);
            proof {
                popped.lemma_same_store(before, h, start, origin, B as nat);
            }
            let dead = g < self.nodes.len() && self.node_at(g).is_dead();
            if dead {
                self.collect_slot(g);
                proof {
                    let after = before.collected(g as int, B as nat);
                    before.lemma_collected_linked(h, g as int, B as nat);
                    before.lemma_collected_kept(h, g as int, start, origin, B as nat);
                    origin = if g == origin.len() - 1 {
                        origin.drop_last()
                    } else {
                        origin.drop_last().update(g as int, origin.last())
                    };
                    popped.lemma_collected_same(before, g as int, B as nat);
                    assert forall|i: int|
                        0 <= i < self@.slots.len() implies #[trigger] self@.waits_if_dead(i) by {
                        if self@.slots[i].is_dead() {
                            before.lemma_collected_dead(h, g as int, i, B as nat);
                            if i != g as int {
                                if before.slots[i].is_dead() {
                                    assert(before.waits_if_dead(i));
                                    let w = choose|w: int|
                                        0 <= w < before.pending.len() && before.pending[w]
                                            == i as usize;
                                    assert(popped.pending[w] == i as usize);
                                    assert(popped.pending.contains(i as usize));
                                } else {
                                    assert(popped.is_child_below(i, g as int, B as int));
                                }
                            }
                        }
                    }
                    self@.lemma_same_store(
                        after,
                        before.heights_collected(h, g as int),
                        start,
                        origin,
                        B as nat,
                    );
                }
            } else {
                proof {
                    assert forall|i: int|
                        0 <= i < self@.slots.len() implies #[trigger] self@.waits_if_dead(i) by {
                        if self@.slots[i].is_dead() {
                            assert(before.waits_if_dead(i));
                            let w = choose|w: int|
                                0 <= w < before.pending.len() && before.pending[w] == i as usize;
                            assert(popped.pending[w] == i as usize);
                        }
                    }
                }
            }
        }
        proof {
            assert forall|i: int| 0 <= i < self@.slots.len() implies !(
            #[trigger] self@.slots[i]).is_dead() by {
                assert(self@.waits_if_dead(i));
            }
            self@.lemma_collected_count(self.heights(), start, B as nat);
        }
    }
}

} // verus!
