//! The slots of a tree's backing store, and the small value types that the
//! tree hands to its callers.

use vstd::prelude::*;

verus! {

/// A reference to a child: empty, or the position of the child's slot.
#[derive(Debug, Copy, Clone, PartialEq, Eq, Structural)]
pub struct ChildId {
    pub index: Option<usize>,
}

/// What a slot knows about the owner of its node.
#[derive(Debug, Copy, Clone, PartialEq, Eq, Structural)]
pub enum ParentId {
    /// The node is the child at `this_branch` of the node at `parent_index`.
    Attached { parent_index: usize, this_branch: usize },
    /// The node is the root of the tree.
    Root,
    /// The node is the root of a detached subtree.
    Detached,
    /// The node was owned by a slot that garbage collection has removed.
    Garbage,
}

/// Error for naming a branch that the branch factor does not have.
#[derive(Debug, Copy, Clone, PartialEq, Eq, Structural)]
pub struct InvalidBranchIndex(pub usize);

/// Error for handing a container of the wrong size to an operation that
/// fills it with one entry per branch.
#[derive(Debug, Copy, Clone, PartialEq, Eq, Structural)]
pub struct WrongChildrenNum {
    pub expected_num: usize,
    pub actual_num: usize,
}

/// Error for descending along a branch that has no child.
#[derive(Debug, Copy, Clone, PartialEq, Eq, Structural)]
pub struct ChildNotFound(pub usize);

/// Error for ascending from a node that has no parent.
#[derive(Debug, Copy, Clone, PartialEq, Eq, Structural)]
pub enum NoParent {
    Root,
    Detached,
}

/// What owns a node.
#[derive(Debug, Copy, Clone, PartialEq, Eq, Structural)]
pub enum AboveMe {
    /// Another node is above this node.
    Parent,
    /// This node is the root of the tree.
    Root,
    /// This node is the root of a detached subtree.
    Detached,
}

/// The position of a node's slot. It names the same node until the next
/// garbage collection.
#[derive(Debug, Copy, Clone, PartialEq, Eq, Structural)]
pub struct NodeIndex {
    pub index: usize,
}

/// One slot of the backing store, as contracts see it.
pub enum Slot<T> {
    /// The element is gone; the child references stay until the slot is
    /// removed, so that removal can reach the children.
    Garbage { children: Seq<ChildId> },
    /// A node of the tree or of a detached subtree.
    Present { elem: T, parent: ParentId, children: Seq<ChildId> },
}

impl<T> Slot<T> {
    /// The child references of the slot, whichever kind it is.
    pub open spec fn children(self) -> Seq<ChildId> {
        match self {
            Slot::Garbage { children } => children,
            Slot::Present { children, .. } => children,
        }
    }

    /// A slot is dead when its element is gone or when its owner was
    /// removed by garbage collection.
    pub open spec fn is_dead(self) -> bool {
        match self {
            Slot::Garbage { .. } => true,
            Slot::Present { parent, .. } => parent == ParentId::Garbage,
        }
    }

    /// The same slot with other child references.
    pub open spec fn with_children(self, children: Seq<ChildId>) -> Self {
        match self {
            Slot::Garbage { .. } => Slot::Garbage { children },
            Slot::Present { elem, parent, .. } => Slot::Present { elem, parent, children },
        }
    }

    /// The same slot with another parent tag; a garbage slot has none.
    pub open spec fn with_parent(self, parent: ParentId) -> Self {
        match self {
            Slot::Garbage { children } => Slot::Garbage { children },
            Slot::Present { elem, children, .. } => Slot::Present { elem, parent, children },
        }
    }

    /// The same slot with another element; a garbage slot has none.
    pub open spec fn with_elem(self, elem: T) -> Self {
        match self {
            Slot::Garbage { children } => Slot::Garbage { children },
            Slot::Present { parent, children, .. } => Slot::Present { elem, parent, children },
        }
    }

    /// The slot after its element was taken out.
    pub open spec fn emptied(self) -> Self {
        Slot::Garbage { children: self.children() }
    }
}

/// `B` empty child references.
pub open spec fn no_children(b: nat) -> Seq<ChildId> {
    Seq::new(b, |k: int| ChildId { index: None })
}

/// One slot of the backing store: a node with `B` child references, or what
/// is left of one.
#[derive(Debug)]
pub enum Node<T, const B: usize> {
    Garbage { children: [ChildId; B] },
    Present { elem: T, parent: ParentId, children: [ChildId; B] },
}

impl<T, const B: usize> View for Node<T, B> {
    type V = Slot<T>;

    open spec fn view(&self) -> Slot<T> {
        match *self {
            Node::Garbage { children } => Slot::Garbage { children: children@ },
            Node::Present { elem, parent, children } => Slot::Present {
                elem,
                parent,
                children: children@,
            },
        }
    }
}

/// `B` empty child references.
pub fn new_child_array<const B: usize>() -> (children: [ChildId; B])
    ensures
        children@ == no_children(B as nat),
{
    let children = [ChildId { index: None };B];
    assert(children@ =~= no_children(B as nat));
    children
}

impl<T, const B: usize> Node<T, B> {
    /// A fresh node without children.
    pub fn new(elem: T, parent: ParentId) -> (node: Self)
        ensures
            node@ == (Slot::Present { elem, parent, children: no_children(B as nat) }),
    {
        Node::Present { elem, parent, children: new_child_array() }
    }

    /// Whether the slot holds a node.
    pub fn is_present(&self) -> (present: bool)
        ensures
            present == (self@ is Present),
    {
        match self {
            Node::Present { .. } => true,
            Node::Garbage { .. } => false,
        }
    }

    /// Whether the slot is dead: its element is gone, or its owner was
    /// removed by garbage collection.
    pub fn is_dead(&self) -> (dead: bool)
        ensures
            dead == self@.is_dead(),
    {
        match self {
            Node::Present { parent, .. } => match parent {
                ParentId::Garbage => true,
                _ => false,
            },
            Node::Garbage { .. } => true,
        }
    }

    /// The parent tag of a node.
    pub fn parent(&self) -> (parent: ParentId)
        requires
            self@ is Present,
        ensures
            parent == self@->parent,
    {
        match self {
            Node::Present { parent, .. } => *parent,
            Node::Garbage { .. } => vstd::pervasive::unreached(),
        }
    }

    /// Replaces the parent tag of a node.
    pub fn set_parent(&mut self, tag: ParentId)
        requires
            old(self)@ is Present,
        ensures
            final(self)@ == old(self)@.with_parent(tag),
    {
        match self {
            Node::Present { parent, .. } => {
                *parent = tag;
            },
            Node::Garbage { .. } => {},
        }
    }

    /// The child reference at `branch`, of a node or of a garbage slot.
    pub fn child(&self, branch: usize) -> (child: ChildId)
        requires
            branch < B,
        ensures
            child == self@.children()[branch as int],
    {
        match self {
            Node::Present { children, .. } => children[branch],
            Node::Garbage { children } => children[branch],
        }
    }

    /// Replaces the child reference at `branch`, of a node or of a garbage
    /// slot.
    pub fn set_child(&mut self, branch: usize, child: ChildId)
        requires
            branch < B,
        ensures
            final(self)@ == old(self)@.with_children(
                old(self)@.children().update(branch as int, child),
            ),
    {
        match self {
            Node::Present { children, .. } => {
                children[branch] = child;
            },
            Node::Garbage { children } => {
                children[branch] = child;
            },
        }
    }

    /// The element of a node.
    pub fn elem(&self) -> (elem: &T)
        requires
            self@ is Present,
        ensures
            *elem == self@->elem,
    {
        match self {
            Node::Present { elem, .. } => elem,
            Node::Garbage { .. } => vstd::pervasive::unreached(),
        }
    }

    /// Mutable access to the element of a node. Nothing else of the node can
    /// change through the result.
    pub fn elem_mut(&mut self) -> (elem: &mut T)
        requires
            old(self)@ is Present,
        ensures
            *elem == old(self)@->elem,
            final(self)@ == old(self)@.with_elem(*final(elem)),
    {
        match self {
            Node::Present { elem, .. } => elem,
            Node::Garbage { .. } => vstd::pervasive::unreached(),
        }
    }

    /// Takes the element out of a node. What stays is a garbage slot with
    /// the node's child references.
    pub fn take_elem_become_garbage(&mut self) -> (elem: T)
        requires
            old(self)@ is Present,
        ensures
            elem == old(self)@->elem,
            final(self)@ == old(self)@.emptied(),
    {
        let mut taken = Node::Garbage { children: new_child_array() };
        core::mem::swap(self, &mut taken);
        match taken {
            Node::Present { elem, parent: _, children } => {
                *self = Node::Garbage { children };
                elem
            },
            Node::Garbage { .. } => vstd::pervasive::unreached(),
        }
    }
}

} // verus!
