//! The mathematical model of a tree: its slots, its root and the queue of
//! slots that wait for removal, with the invariants that hold of them and
//! the effect of each operation.

use crate::node::{ChildId, ParentId, Slot, no_children};
use vstd::prelude::*;

verus! {

/// A tree as contracts see it.
#[verifier::ext_equal]
pub struct TreeView<T> {
    /// The slots of the backing store, by position.
    pub slots: Seq<Slot<T>>,
    /// The position of the root's slot, if the tree has a root.
    pub root: Option<usize>,
    /// The positions that wait for removal, the next one to be handled last.
    pub pending: Seq<usize>,
}

impl<T> TreeView<T> {
    /// The tree without any slot.
    pub open spec fn empty() -> Self {
        TreeView { slots: Seq::empty(), root: None, pending: Seq::empty() }
    }

    /// Position `i` holds a node (which may be dead).
    pub open spec fn is_present(self, i: int) -> bool {
        0 <= i < self.slots.len() && self.slots[i] is Present
    }

    /// Position `i` holds a node that is not dead.
    pub open spec fn is_node(self, i: int) -> bool {
        self.is_present(i) && self.slots[i]->parent != ParentId::Garbage
    }

    /// Position `i` holds the root of a detached subtree.
    pub open spec fn is_detached(self, i: int) -> bool {
        self.is_present(i) && self.slots[i]->parent == ParentId::Detached
    }

    /// The parent tag of the node at `i`.
    pub open spec fn tag(self, i: int) -> ParentId {
        self.slots[i]->parent
    }

    /// The element of the node at `i`.
    pub open spec fn elem(self, i: int) -> T {
        self.slots[i]->elem
    }

    /// The child reference at branch `k` of the slot at `p`.
    pub open spec fn child(self, p: int, k: int) -> Option<usize> {
        self.slots[p].children()[k].index
    }

    /// The position of the node that owns the node at `i`, if a node does.
    pub open spec fn parent_of(self, i: int) -> Option<int> {
        if self.is_present(i) {
            match self.tag(i) {
                ParentId::Attached { parent_index, .. } => Some(parent_index as int),
                _ => None,
            }
        } else {
            None
        }
    }

    /// The position reached from `i` by going to the owner `steps` times.
    pub open spec fn ancestor(self, i: int, steps: nat) -> Option<int>
        decreases steps,
    {
        if steps == 0 {
            Some(i)
        } else {
            match self.ancestor(i, (steps - 1) as nat) {
                Some(j) => self.parent_of(j),
                None => None,
            }
        }
    }

    /// `a` is `i` itself or lies above `i`.
    pub open spec fn has_ancestor(self, i: int, a: int) -> bool {
        exists|steps: nat| self.ancestor(i, steps) == Some(a)
    }

    // ----- invariants -----
    /// Every slot has `b` child references.
    pub open spec fn arity_ok(self, b: nat) -> bool {
        forall|i: int| 0 <= i < self.slots.len() ==> (#[trigger] self.slots[i]).children().len() == b
    }

    /// The root position, if there is one, holds a node tagged as root.
    pub open spec fn root_ok(self) -> bool {
        match self.root {
            Some(r) => self.is_present(r as int) && self.tag(r as int) == ParentId::Root,
            None => true,
        }
    }

    /// What the child reference at branch `k` of slot `p` names, if
    /// anything, is a node tagged as that child.
    pub open spec fn link_ok(self, p: int, k: int) -> bool {
        match self.child(p, k) {
            Some(c) => {
                &&& self.is_present(c as int)
                &&& self.tag(c as int) == ParentId::Attached {
                    parent_index: p as usize,
                    this_branch: k as usize,
                }
            },
            None => true,
        }
    }

    /// Every child reference names a node tagged as that child.
    pub open spec fn links_ok(self) -> bool {
        forall|p: int, k: int|
            0 <= p < self.slots.len() && 0 <= k < self.slots[p].children().len()
                ==> #[trigger] self.link_ok(p, k)
    }

    /// If `c` holds a node tagged as a child, the slot it names references
    /// it at that branch; if it holds a node tagged as root, it is the root.
    pub open spec fn tag_ok(self, c: int) -> bool {
        self.slots[c] is Present ==> match self.tag(c) {
            ParentId::Attached { parent_index, this_branch } => {
                &&& parent_index < self.slots.len()
                &&& this_branch < self.slots[parent_index as int].children().len()
                &&& self.child(parent_index as int, this_branch as int) == Some(c as usize)
            },
            ParentId::Root => self.root == Some(c as usize),
            ParentId::Detached => true,
            ParentId::Garbage => true,
        }
    }

    /// Every parent tag is mirrored by what it names.
    pub open spec fn tags_ok(self) -> bool {
        forall|c: int| 0 <= c < self.slots.len() ==> #[trigger] self.tag_ok(c)
    }

    /// If the slot at `i` is dead, it waits for removal.
    pub open spec fn waits_if_dead(self, i: int) -> bool {
        self.slots[i].is_dead() ==> self.pending.contains(i as usize)
    }

    /// Every dead slot waits for removal.
    pub open spec fn pending_ok(self) -> bool {
        forall|i: int| 0 <= i < self.slots.len() ==> #[trigger] self.waits_if_dead(i)
    }

    /// The invariant of the store for branch factor `b`. It holds at every
    /// moment, also in the middle of a garbage collection.
    pub open spec fn inv(self, b: nat) -> bool {
        self.linked(b) && self.pending_ok()
    }

    /// The part of the store invariant that speaks of slots and root only:
    /// child references and parent tags mirror each other.
    pub open spec fn linked(self, b: nat) -> bool {
        &&& self.slots.len() <= usize::MAX
        &&& b <= usize::MAX
        &&& self.arity_ok(b)
        &&& self.root_ok()
        &&& self.links_ok()
        &&& self.tags_ok()
    }

    /// No node carries the tag that garbage collection gives to the
    /// children of a removed slot.
    pub open spec fn no_garbage_tags(self) -> bool {
        forall|i: int|
            0 <= i < self.slots.len() && (#[trigger] self.slots[i]) is Present ==> self.tag(i)
                != ParentId::Garbage
    }

    /// No node is the root of a detached subtree.
    pub open spec fn no_detached(self) -> bool {
        forall|i: int|
            0 <= i < self.slots.len() && (#[trigger] self.slots[i]) is Present ==> self.tag(i)
                != ParentId::Detached
    }

    /// No slot is dead.
    pub open spec fn no_garbage(self) -> bool {
        forall|i: int| 0 <= i < self.slots.len() ==> !(#[trigger] self.slots[i]).is_dead()
    }

    /// The state that a garbage collection leaves: every slot is a node of
    /// the tree, and nothing waits for removal.
    pub open spec fn is_clean(self) -> bool {
        &&& self.no_garbage()
        &&& self.no_detached()
        &&& self.pending.len() == 0
    }

    /// The invariant of the store while the tree is in use: the store
    /// invariant, and no node carries the tag of garbage collection.
    pub open spec fn wf(self, b: nat) -> bool {
        self.inv(b) && self.no_garbage_tags()
    }

    // ----- elementary changes -----
    /// The parent tag at `i` replaced.
    pub open spec fn set_tag(self, i: int, tag: ParentId) -> Self {
        TreeView { slots: self.slots.update(i, self.slots[i].with_parent(tag)), ..self }
    }

    /// The child reference at branch `k` of slot `p` replaced.
    pub open spec fn set_child(self, p: int, k: int, child: Option<usize>) -> Self {
        TreeView {
            slots: self.slots.update(
                p,
                self.slots[p].with_children(
                    self.slots[p].children().update(k, ChildId { index: child }),
                ),
            ),
            ..self
        }
    }

    /// The element at `i` replaced.
    pub open spec fn set_elem(self, i: int, elem: T) -> Self {
        TreeView { slots: self.slots.update(i, self.slots[i].with_elem(elem)), ..self }
    }

    /// The root position replaced.
    pub open spec fn set_root(self, root: Option<usize>) -> Self {
        TreeView { root, ..self }
    }

    /// The node at `i` turned into garbage that waits for removal.
    pub open spec fn discard(self, i: int) -> Self {
        TreeView {
            slots: self.slots.update(i, self.slots[i].emptied()),
            pending: self.pending.push(i as usize),
            ..self
        }
    }

    /// A node without children appended behind the last slot.
    pub open spec fn append(self, elem: T, tag: ParentId, b: nat) -> Self {
        TreeView {
            slots: self.slots.push(Slot::Present { elem, parent: tag, children: no_children(b) }),
            ..self
        }
    }

    // ----- operations -----
    /// The root, if there is one, turned into garbage.
    pub open spec fn delete_root(self) -> Self {
        match self.root {
            Some(r) => self.discard(r as int),
            None => self,
        }
    }

    /// The child at branch `k` of `n`, if there is one, turned into garbage.
    pub open spec fn delete_child(self, n: int, k: int) -> Self {
        match self.child(n, k) {
            Some(c) => self.discard(c as int),
            None => self,
        }
    }

    /// A new root with element `elem`; the old root becomes garbage.
    pub open spec fn put_root_elem(self, elem: T, b: nat) -> Self {
        self.append(elem, ParentId::Root, b).delete_root().set_root(
            Some(self.slots.len() as usize),
        )
    }

    /// The detached subtree at `s` made the root; the old root becomes
    /// garbage.
    pub open spec fn put_root_tree(self, s: int) -> Self {
        self.delete_root().set_root(Some(s as usize)).set_tag(s, ParentId::Root)
    }

    /// The root, if there is one, detached.
    pub open spec fn take_root(self) -> Self {
        match self.root {
            Some(r) => self.set_tag(r as int, ParentId::Detached).set_root(None),
            None => self,
        }
    }

    /// A new detached node with element `elem`.
    pub open spec fn new_detached(self, elem: T, b: nat) -> Self {
        self.append(elem, ParentId::Detached, b)
    }

    /// The node at `i` detached from what owns it.
    pub open spec fn detach(self, i: int) -> Self {
        match self.tag(i) {
            ParentId::Attached { parent_index, this_branch } => self.set_tag(
                i,
                ParentId::Detached,
            ).set_child(parent_index as int, this_branch as int, None),
            ParentId::Root => self.set_tag(i, ParentId::Detached).set_root(None),
            _ => self,
        }
    }

    /// The child at branch `k` of `n`, if there is one, detached.
    pub open spec fn take_child(self, n: int, k: int) -> Self {
        match self.child(n, k) {
            Some(c) => self.set_tag(c as int, ParentId::Detached).set_child(n, k, None),
            None => self,
        }
    }

    /// A new node with element `elem` made the child at branch `k` of `n`;
    /// the old child becomes garbage.
    pub open spec fn put_child_elem(self, n: int, k: int, elem: T, b: nat) -> Self {
        self.append(
            elem,
            ParentId::Attached { parent_index: n as usize, this_branch: k as usize },
            b,
        ).delete_child(n, k).set_child(n, k, Some(self.slots.len() as usize))
    }

    /// The detached subtree at `s` made the child at branch `k` of `n`; the
    /// old child becomes garbage.
    pub open spec fn put_child_tree(self, n: int, k: int, s: int) -> Self {
        self.delete_child(n, k).set_child(n, k, Some(s as usize)).set_tag(
            s,
            ParentId::Attached { parent_index: n as usize, this_branch: k as usize },
        )
    }

}

/// What a queue held it still holds after a push, and it holds what was
/// pushed.
pub proof fn lemma_push_contains<A>(s: Seq<A>, x: A)
    ensures
        s.push(x).contains(x),
        forall|y: A| s.contains(y) ==> #[trigger] s.push(x).contains(y),
{
    assert(s.push(x)[s.len() as int] == x);
    assert forall|y: A| s.contains(y) implies #[trigger] s.push(x).contains(y) by {
        let w = choose|w: int| 0 <= w < s.len() && s[w] == y;
        assert(s.push(x)[w] == y);
    }
}

impl<T> TreeView<T> {
    /// A new root keeps the invariant.
    pub proof fn lemma_put_root_elem_wf(self, elem: T, b: nat)
        requires
            self.wf(b),
            self.slots.len() < usize::MAX,
        ensures
            self.put_root_elem(elem, b).wf(b),
    {
        let after = self.put_root_elem(elem, b);
        let n = self.slots.len() as int;
        if self.root is Some {
            lemma_push_contains(self.pending, self.root.unwrap());
        }
        assert forall|p: int, k: int|
            0 <= p < after.slots.len() && 0 <= k < after.slots[p].children().len()
                implies #[trigger] after.link_ok(p, k) by {
            if p < n {
                assert(self.link_ok(p, k));
                assert(self.slots[p].children().len() == b);
                if self.child(p, k) is Some {
                    assert(self.tag_ok(self.child(p, k).unwrap() as int));
                }
            }
        }
        assert forall|c: int| 0 <= c < after.slots.len() implies #[trigger] after.tag_ok(c) by {
            if c < n {
                assert(self.tag_ok(c));
                assert(self.slots[c] is Present ==> self.tag(c) != ParentId::Garbage);
            }
        }
        assert forall|i: int| 0 <= i < after.slots.len() implies #[trigger] after.waits_if_dead(
            i,
        ) by {
            if i < n {
                assert(self.waits_if_dead(i));
                assert(self.slots[i] is Present ==> self.tag(i) != ParentId::Garbage);
            }
        }
        assert forall|i: int| 0 <= i < after.slots.len() implies (
        #[trigger] after.slots[i]).children().len() == b by {
            if i < n {
                assert(self.slots[i].children().len() == b);
            }
        }
        assert forall|i: int|
            0 <= i < after.slots.len() && (#[trigger] after.slots[i]) is Present implies after.tag(i)
            != ParentId::Garbage by {
            if i < n {
                assert(self.slots[i] is Present ==> self.tag(i) != ParentId::Garbage);
            }
        }
    }

    /// Making a detached subtree the root keeps the invariant.
    pub proof fn lemma_put_root_tree_wf(self, s: int, b: nat)
        requires
            self.wf(b),
            self.is_present(s),
            self.tag(s) == ParentId::Detached,
        ensures
            self.put_root_tree(s).wf(b),
    {
        let after = self.put_root_tree(s);
        let n = self.slots.len() as int;
        if self.root is Some {
            lemma_push_contains(self.pending, self.root.unwrap());
        }
        assert(self.tag_ok(s));
        assert forall|p: int, k: int|
            0 <= p < after.slots.len() && 0 <= k < after.slots[p].children().len()
                implies #[trigger] after.link_ok(p, k) by {
            if p < n {
                assert(self.link_ok(p, k));
                assert(self.slots[p].children().len() == b);
                if self.child(p, k) is Some {
                    assert(self.tag_ok(self.child(p, k).unwrap() as int));
                }
            }
        }
        assert forall|c: int| 0 <= c < after.slots.len() implies #[trigger] after.tag_ok(c) by {
            if c < n {
                assert(self.tag_ok(c));
                assert(self.slots[c] is Present ==> self.tag(c) != ParentId::Garbage);
            }
        }
        assert forall|i: int| 0 <= i < after.slots.len() implies #[trigger] after.waits_if_dead(
            i,
        ) by {
            if i < n {
                assert(self.waits_if_dead(i));
                assert(self.slots[i] is Present ==> self.tag(i) != ParentId::Garbage);
            }
        }
        assert forall|i: int| 0 <= i < after.slots.len() implies (
        #[trigger] after.slots[i]).children().len() == b by {
            if i < n {
                assert(self.slots[i].children().len() == b);
            }
        }
        assert forall|i: int|
            0 <= i < after.slots.len() && (#[trigger] after.slots[i]) is Present implies after.tag(i)
            != ParentId::Garbage by {
            if i < n {
                assert(self.slots[i] is Present ==> self.tag(i) != ParentId::Garbage);
            }
        }
    }

    /// Detaching the root keeps the invariant.
    pub proof fn lemma_take_root_wf(self, b: nat)
        requires
            self.wf(b),
        ensures
            self.take_root().wf(b),
    {
        let after = self.take_root();
        let n = self.slots.len() as int;
        assert forall|p: int, k: int|
            0 <= p < after.slots.len() && 0 <= k < after.slots[p].children().len()
                implies #[trigger] after.link_ok(p, k) by {
            if p < n {
                assert(self.link_ok(p, k));
                assert(self.slots[p].children().len() == b);
                if self.child(p, k) is Some {
                    assert(self.tag_ok(self.child(p, k).unwrap() as int));
                }
            }
        }
        assert forall|c: int| 0 <= c < after.slots.len() implies #[trigger] after.tag_ok(c) by {
            if c < n {
                assert(self.tag_ok(c));
                assert(self.slots[c] is Present ==> self.tag(c) != ParentId::Garbage);
            }
        }
        assert forall|i: int| 0 <= i < after.slots.len() implies #[trigger] after.waits_if_dead(
            i,
        ) by {
            if i < n {
                assert(self.waits_if_dead(i));
                assert(self.slots[i] is Present ==> self.tag(i) != ParentId::Garbage);
            }
        }
        assert forall|i: int| 0 <= i < after.slots.len() implies (
        #[trigger] after.slots[i]).children().len() == b by {
            if i < n {
                assert(self.slots[i].children().len() == b);
            }
        }
        assert forall|i: int|
            0 <= i < after.slots.len() && (#[trigger] after.slots[i]) is Present implies after.tag(i)
            != ParentId::Garbage by {
            if i < n {
                assert(self.slots[i] is Present ==> self.tag(i) != ParentId::Garbage);
            }
        }
    }

    /// A new detached node keeps the invariant.
    pub proof fn lemma_new_detached_wf(self, elem: T, b: nat)
        requires
            self.wf(b),
            self.slots.len() < usize::MAX,
        ensures
            self.new_detached(elem, b).wf(b),
    {
        let after = self.new_detached(elem, b);
        let n = self.slots.len() as int;
        assert forall|p: int, k: int|
            0 <= p < after.slots.len() && 0 <= k < after.slots[p].children().len()
                implies #[trigger] after.link_ok(p, k) by {
            if p < n {
                assert(self.link_ok(p, k));
                assert(self.slots[p].children().len() == b);
                if self.child(p, k) is Some {
                    assert(self.tag_ok(self.child(p, k).unwrap() as int));
                }
            }
        }
        assert forall|c: int| 0 <= c < after.slots.len() implies #[trigger] after.tag_ok(c) by {
            if c < n {
                assert(self.tag_ok(c));
                assert(self.slots[c] is Present ==> self.tag(c) != ParentId::Garbage);
            }
        }
        assert forall|i: int| 0 <= i < after.slots.len() implies #[trigger] after.waits_if_dead(
            i,
        ) by {
            if i < n {
                assert(self.waits_if_dead(i));
                assert(self.slots[i] is Present ==> self.tag(i) != ParentId::Garbage);
            }
        }
        assert forall|i: int| 0 <= i < after.slots.len() implies (
        #[trigger] after.slots[i]).children().len() == b by {
            if i < n {
                assert(self.slots[i].children().len() == b);
            }
        }
        assert forall|i: int|
            0 <= i < after.slots.len() && (#[trigger] after.slots[i]) is Present implies after.tag(i)
            != ParentId::Garbage by {
            if i < n {
                assert(self.slots[i] is Present ==> self.tag(i) != ParentId::Garbage);
            }
        }
    }

    /// Detaching a node keeps the invariant.
    pub proof fn lemma_detach_wf(self, i: int, b: nat)
        requires
            self.wf(b),
            self.is_present(i),
        ensures
            self.detach(i).wf(b),
    {
        let after = self.detach(i);
        let n = self.slots.len() as int;
        assert(self.tag_ok(i));
        assert forall|p: int, k: int|
            0 <= p < after.slots.len() && 0 <= k < after.slots[p].children().len()
                implies #[trigger] after.link_ok(p, k) by {
            if p < n {
                assert(self.link_ok(p, k));
                assert(self.slots[p].children().len() == b);
                if self.child(p, k) is Some {
                    assert(self.tag_ok(self.child(p, k).unwrap() as int));
                }
            }
        }
        assert forall|c: int| 0 <= c < after.slots.len() implies #[trigger] after.tag_ok(c) by {
            if c < n {
                assert(self.tag_ok(c));
                assert(self.slots[c] is Present ==> self.tag(c) != ParentId::Garbage);
            }
        }
        assert forall|i: int| 0 <= i < after.slots.len() implies #[trigger] after.waits_if_dead(
            i,
        ) by {
            if i < n {
                assert(self.waits_if_dead(i));
                assert(self.slots[i] is Present ==> self.tag(i) != ParentId::Garbage);
            }
        }
        assert forall|i: int| 0 <= i < after.slots.len() implies (
        #[trigger] after.slots[i]).children().len() == b by {
            if i < n {
                assert(self.slots[i].children().len() == b);
            }
        }
        assert forall|i: int|
            0 <= i < after.slots.len() && (#[trigger] after.slots[i]) is Present implies after.tag(i)
            != ParentId::Garbage by {
            if i < n {
                assert(self.slots[i] is Present ==> self.tag(i) != ParentId::Garbage);
            }
        }
    }

    /// Detaching a child keeps the invariant.
    pub proof fn lemma_take_child_wf(self, m: int, j: int, b: nat)
        requires
            self.wf(b),
            0 <= m < self.slots.len(),
            0 <= j < b,
        ensures
            self.take_child(m, j).wf(b),
    {
        let after = self.take_child(m, j);
        let n = self.slots.len() as int;
        assert(self.slots[m].children().len() == b);
        assert(self.link_ok(m, j));
        assert forall|p: int, k: int|
            0 <= p < after.slots.len() && 0 <= k < after.slots[p].children().len()
                implies #[trigger] after.link_ok(p, k) by {
            if p < n {
                assert(self.link_ok(p, k));
                assert(self.slots[p].children().len() == b);
                if self.child(p, k) is Some {
                    assert(self.tag_ok(self.child(p, k).unwrap() as int));
                }
            }
        }
        assert forall|c: int| 0 <= c < after.slots.len() implies #[trigger] after.tag_ok(c) by {
            if c < n {
                assert(self.tag_ok(c));
                assert(self.slots[c] is Present ==> self.tag(c) != ParentId::Garbage);
            }
        }
        assert forall|i: int| 0 <= i < after.slots.len() implies #[trigger] after.waits_if_dead(
            i,
        ) by {
            if i < n {
                assert(self.waits_if_dead(i));
                assert(self.slots[i] is Present ==> self.tag(i) != ParentId::Garbage);
            }
        }
        assert forall|i: int| 0 <= i < after.slots.len() implies (
        #[trigger] after.slots[i]).children().len() == b by {
            if i < n {
                assert(self.slots[i].children().len() == b);
            }
        }
        assert forall|i: int|
            0 <= i < after.slots.len() && (#[trigger] after.slots[i]) is Present implies after.tag(i)
            != ParentId::Garbage by {
            if i < n {
                assert(self.slots[i] is Present ==> self.tag(i) != ParentId::Garbage);
            }
        }
    }

    /// A new child keeps the invariant.
    pub proof fn lemma_put_child_elem_wf(self, m: int, j: int, elem: T, b: nat)
        requires
            self.wf(b),
            self.is_present(m),
            0 <= j < b,
            self.slots.len() < usize::MAX,
        ensures
            self.put_child_elem(m, j, elem, b).wf(b),
    {
        let after = self.put_child_elem(m, j, elem, b);
        let n = self.slots.len() as int;
        assert(self.slots[m].children().len() == b);
        assert(self.link_ok(m, j));
        if self.child(m, j) is Some {
            lemma_push_contains(self.pending, self.child(m, j).unwrap());
        }
        assert forall|p: int, k: int|
            0 <= p < after.slots.len() && 0 <= k < after.slots[p].children().len()
                implies #[trigger] after.link_ok(p, k) by {
            if p < n {
                assert(self.link_ok(p, k));
                assert(self.slots[p].children().len() == b);
                if self.child(p, k) is Some {
                    assert(self.tag_ok(self.child(p, k).unwrap() as int));
                }
            }
        }
        assert forall|c: int| 0 <= c < after.slots.len() implies #[trigger] after.tag_ok(c) by {
            if c < n {
                assert(self.tag_ok(c));
                assert(self.slots[c] is Present ==> self.tag(c) != ParentId::Garbage);
            }
        }
        assert forall|i: int| 0 <= i < after.slots.len() implies #[trigger] after.waits_if_dead(
            i,
        ) by {
            if i < n {
                assert(self.waits_if_dead(i));
                assert(self.slots[i] is Present ==> self.tag(i) != ParentId::Garbage);
            }
        }
        assert forall|i: int| 0 <= i < after.slots.len() implies (
        #[trigger] after.slots[i]).children().len() == b by {
            if i < n {
                assert(self.slots[i].children().len() == b);
            }
        }
        assert forall|i: int|
            0 <= i < after.slots.len() && (#[trigger] after.slots[i]) is Present implies after.tag(i)
            != ParentId::Garbage by {
            if i < n {
                assert(self.slots[i] is Present ==> self.tag(i) != ParentId::Garbage);
            }
        }
    }

    /// Attaching a detached subtree as a child keeps the invariant.
    pub proof fn lemma_put_child_tree_wf(self, m: int, j: int, s: int, b: nat)
        requires
            self.wf(b),
            self.is_present(m),
            0 <= j < b,
            self.is_present(s),
            self.tag(s) == ParentId::Detached,
            s != m,
        ensures
            self.put_child_tree(m, j, s).wf(b),
    {
        let after = self.put_child_tree(m, j, s);
        let n = self.slots.len() as int;
        assert(self.slots[m].children().len() == b);
        assert(self.link_ok(m, j));
        assert(self.tag_ok(s));
        if self.child(m, j) is Some {
            lemma_push_contains(self.pending, self.child(m, j).unwrap());
        }
        assert forall|p: int, k: int|
            0 <= p < after.slots.len() && 0 <= k < after.slots[p].children().len()
                implies #[trigger] after.link_ok(p, k) by {
            if p < n {
                assert(self.link_ok(p, k));
                assert(self.slots[p].children().len() == b);
                if self.child(p, k) is Some {
                    assert(self.tag_ok(self.child(p, k).unwrap() as int));
                }
            }
        }
        assert forall|c: int| 0 <= c < after.slots.len() implies #[trigger] after.tag_ok(c) by {
            if c < n {
                assert(self.tag_ok(c));
                assert(self.slots[c] is Present ==> self.tag(c) != ParentId::Garbage);
            }
        }
        assert forall|i: int| 0 <= i < after.slots.len() implies #[trigger] after.waits_if_dead(
            i,
        ) by {
            if i < n {
                assert(self.waits_if_dead(i));
                assert(self.slots[i] is Present ==> self.tag(i) != ParentId::Garbage);
            }
        }
        assert forall|i: int| 0 <= i < after.slots.len() implies (
        #[trigger] after.slots[i]).children().len() == b by {
            if i < n {
                assert(self.slots[i].children().len() == b);
            }
        }
        assert forall|i: int|
            0 <= i < after.slots.len() && (#[trigger] after.slots[i]) is Present implies after.tag(i)
            != ParentId::Garbage by {
            if i < n {
                assert(self.slots[i] is Present ==> self.tag(i) != ParentId::Garbage);
            }
        }
    }

    /// Turning the root of a detached subtree into garbage keeps the invariant.
    pub proof fn lemma_discard_wf(self, i: int, b: nat)
        requires
            self.wf(b),
            self.is_present(i),
            self.tag(i) == ParentId::Detached,
        ensures
            self.discard(i).wf(b),
    {
        let after = self.discard(i);
        let n = self.slots.len() as int;
        lemma_push_contains(self.pending, i as usize);
        assert forall|p: int, k: int|
            0 <= p < after.slots.len() && 0 <= k < after.slots[p].children().len()
                implies #[trigger] after.link_ok(p, k) by {
            if p < n {
                assert(self.link_ok(p, k));
                assert(self.slots[p].children().len() == b);
                if self.child(p, k) is Some {
                    assert(self.tag_ok(self.child(p, k).unwrap() as int));
                }
            }
        }
        assert forall|c: int| 0 <= c < after.slots.len() implies #[trigger] after.tag_ok(c) by {
            if c < n {
                assert(self.tag_ok(c));
                assert(self.slots[c] is Present ==> self.tag(c) != ParentId::Garbage);
            }
        }
        assert forall|i: int| 0 <= i < after.slots.len() implies #[trigger] after.waits_if_dead(
            i,
        ) by {
            if i < n {
                assert(self.waits_if_dead(i));
                assert(self.slots[i] is Present ==> self.tag(i) != ParentId::Garbage);
            }
        }
        assert forall|i: int| 0 <= i < after.slots.len() implies (
        #[trigger] after.slots[i]).children().len() == b by {
            if i < n {
                assert(self.slots[i].children().len() == b);
            }
        }
        assert forall|i: int|
            0 <= i < after.slots.len() && (#[trigger] after.slots[i]) is Present implies after.tag(i)
            != ParentId::Garbage by {
            if i < n {
                assert(self.slots[i] is Present ==> self.tag(i) != ParentId::Garbage);
            }
        }
    }

    /// Replacing an element keeps the invariant.
    pub proof fn lemma_set_elem_wf(self, i: int, elem: T, b: nat)
        requires
            self.wf(b),
            self.is_present(i),
        ensures
            self.set_elem(i, elem).wf(b),
    {
        let after = self.set_elem(i, elem);
        let n = self.slots.len() as int;
        assert forall|p: int, k: int|
            0 <= p < after.slots.len() && 0 <= k < after.slots[p].children().len()
                implies #[trigger] after.link_ok(p, k) by {
            if p < n {
                assert(self.link_ok(p, k));
                assert(self.slots[p].children().len() == b);
                if self.child(p, k) is Some {
                    assert(self.tag_ok(self.child(p, k).unwrap() as int));
                }
            }
        }
        assert forall|c: int| 0 <= c < after.slots.len() implies #[trigger] after.tag_ok(c) by {
            if c < n {
                assert(self.tag_ok(c));
                assert(self.slots[c] is Present ==> self.tag(c) != ParentId::Garbage);
            }
        }
        assert forall|i: int| 0 <= i < after.slots.len() implies #[trigger] after.waits_if_dead(
            i,
        ) by {
            if i < n {
                assert(self.waits_if_dead(i));
                assert(self.slots[i] is Present ==> self.tag(i) != ParentId::Garbage);
            }
        }
        assert forall|i: int| 0 <= i < after.slots.len() implies (
        #[trigger] after.slots[i]).children().len() == b by {
            if i < n {
                assert(self.slots[i].children().len() == b);
            }
        }
        assert forall|i: int|
            0 <= i < after.slots.len() && (#[trigger] after.slots[i]) is Present implies after.tag(i)
            != ParentId::Garbage by {
            if i < n {
                assert(self.slots[i] is Present ==> self.tag(i) != ParentId::Garbage);
            }
        }
    }

    // ----- heights -----
    /// The child at branch `k` of slot `p`, if there is one, has a smaller
    /// height than `p`.
    pub open spec fn edge_ranked(self, h: Seq<nat>, p: int, k: int) -> bool {
        match self.child(p, k) {
            Some(c) => 0 <= c < h.len() && h[c as int] < h[p],
            None => true,
        }
    }

    /// `h` gives every slot a height that is greater than the heights of
    /// the slot's children. Such heights exist only where no slot lies
    /// above itself.
    pub open spec fn ranked(self, h: Seq<nat>) -> bool {
        &&& h.len() == self.slots.len()
        &&& forall|p: int, k: int|
            0 <= p < self.slots.len() && 0 <= k < self.slots[p].children().len()
                ==> #[trigger] self.edge_ranked(h, p, k)
    }

    /// The heights `h`, raised by `amount` at `n` and at everything above
    /// `n`.
    pub open spec fn raise(self, h: Seq<nat>, n: int, amount: nat) -> Seq<nat> {
        Seq::new(h.len(), |i: int| if self.has_ancestor(n, i) { h[i] + amount } else { h[i] })
    }

    /// What owns something that lies above `n` lies above `n` too.
    pub proof fn lemma_ancestor_step(self, n: int, c: int)
        requires
            self.has_ancestor(n, c),
            self.parent_of(c) is Some,
        ensures
            self.has_ancestor(n, self.parent_of(c).unwrap()),
    {
        let steps = choose|steps: nat| self.ancestor(n, steps) == Some(c);
        assert(self.ancestor(n, steps + 1) == self.parent_of(c));
    }

    /// A node that nothing owns has no ancestor but itself.
    pub proof fn lemma_top_has_no_ancestor(self, n: int, a: int)
        requires
            self.parent_of(n) is None,
            self.has_ancestor(n, a),
        ensures
            a == n,
    {
        let steps = choose|steps: nat| self.ancestor(n, steps) == Some(a);
        self.lemma_ancestor_above_top(n, steps);
    }

    /// A node that nothing owns lies below nothing but itself.
    pub proof fn lemma_top_has_no_ancestor_of(self, n: int)
        requires
            self.parent_of(n) is None,
        ensures
            forall|a: int| #[trigger] self.has_ancestor(n, a) ==> a == n,
    {
        assert forall|a: int| #[trigger] self.has_ancestor(n, a) implies a == n by {
            self.lemma_top_has_no_ancestor(n, a);
        }
    }

    /// Going up from a node that nothing owns leads nowhere.
    pub proof fn lemma_ancestor_above_top(self, n: int, steps: nat)
        requires
            self.parent_of(n) is None,
        ensures
            steps > 0 ==> self.ancestor(n, steps) is None,
        decreases steps,
    {
        if steps > 1 {
            self.lemma_ancestor_above_top(n, (steps - 1) as nat);
        } else if steps == 1 {
            assert(self.ancestor(n, 0) == Some(n));
        }
    }

    /// Going up from a node leads, one step later, to where going up from
    /// its owner leads.
    pub proof fn lemma_ancestor_of_owner(self, i: int, steps: nat)
        requires
            self.parent_of(i) is Some,
        ensures
            self.ancestor(i, steps + 1) == self.ancestor(self.parent_of(i).unwrap(), steps),
        decreases steps,
    {
        if steps == 0 {
            assert(self.ancestor(i, 0) == Some(i));
            assert(self.ancestor(i, 1) == self.parent_of(i));
        } else {
            self.lemma_ancestor_of_owner(i, (steps - 1) as nat);
        }
    }

    /// The owner of a node is higher than the node.
    pub proof fn lemma_owner_is_higher(self, h: Seq<nat>, c: int, b: nat)
        requires
            self.linked(b),
            self.ranked(h),
            self.is_present(c),
        ensures
            self.parent_of(c) is Some ==> 0 <= self.parent_of(c).unwrap() < h.len() && h[c]
                < h[self.parent_of(c).unwrap()],
    {
        assert(self.tag_ok(c));
        match self.tag(c) {
            ParentId::Attached { parent_index, this_branch } => {
                assert(self.slots[parent_index as int].children().len() == b);
                assert(self.edge_ranked(h, parent_index as int, this_branch as int));
            },
            _ => {},
        }
    }

    /// Going up never leads to a lower position.
    pub proof fn lemma_ancestor_is_higher(self, h: Seq<nat>, i: int, steps: nat, b: nat)
        requires
            self.linked(b),
            self.ranked(h),
            self.is_present(i),
            self.ancestor(i, steps) is Some,
        ensures
            0 <= self.ancestor(i, steps).unwrap() < h.len(),
            h[i] <= h[self.ancestor(i, steps).unwrap()],
            steps > 0 ==> h[i] < h[self.ancestor(i, steps).unwrap()],
        decreases steps,
    {
        if steps > 0 {
            let up = self.ancestor(i, (steps - 1) as nat);
            assert(up is Some);
            self.lemma_ancestor_is_higher(h, i, (steps - 1) as nat, b);
            self.lemma_owner_is_higher(h, up.unwrap(), b);
        }
    }

    /// What is not higher than a node does not lie above it.
    pub proof fn lemma_not_above(self, h: Seq<nat>, i: int, a: int, b: nat)
        requires
            self.linked(b),
            self.ranked(h),
            self.is_present(i),
            0 <= a < h.len(),
            a != i,
            h[a] <= h[i],
        ensures
            !self.has_ancestor(i, a),
    {
        if self.has_ancestor(i, a) {
            let steps = choose|steps: nat| self.ancestor(i, steps) == Some(a);
            self.lemma_ancestor_is_higher(h, i, steps, b);
        }
    }

    /// Raising the heights along the way up from `n` keeps every child
    /// below its owner.
    pub proof fn lemma_raise_ranked(self, h: Seq<nat>, n: int, amount: nat, b: nat)
        requires
            self.inv(b),
            self.ranked(h),
        ensures
            self.ranked(self.raise(h, n, amount)),
    {
        let r = self.raise(h, n, amount);
        assert forall|p: int, k: int|
            0 <= p < self.slots.len() && 0 <= k < self.slots[p].children().len()
                implies #[trigger] self.edge_ranked(r, p, k) by {
            assert(self.edge_ranked(h, p, k));
            assert(self.link_ok(p, k));
            if self.child(p, k) is Some {
                let c = self.child(p, k).unwrap() as int;
                if self.has_ancestor(n, c) {
                    self.lemma_ancestor_step(n, c);
                }
            }
        }
    }

    /// Heights stay valid when slots are only appended without children and
    /// child references are only removed.
    pub proof fn lemma_ranked_fewer_edges(self, h: Seq<nat>, after: Self, more: Seq<nat>)
        requires
            self.ranked(h),
            after.slots.len() == self.slots.len() + more.len(),
            forall|p: int, k: int|
                0 <= p < after.slots.len() && 0 <= k < after.slots[p].children().len() && (
                #[trigger] after.child(p, k)) is Some ==> p < self.slots.len() && k
                    < self.slots[p].children().len() && self.child(p, k) == after.child(p, k),
        ensures
            after.ranked(h + more),
    {
        assert forall|p: int, k: int|
            0 <= p < after.slots.len() && 0 <= k < after.slots[p].children().len()
                implies #[trigger] after.edge_ranked(h + more, p, k) by {
            if after.child(p, k) is Some {
                assert(self.edge_ranked(h, p, k));
            }
        }
    }

    /// A new root leaves the heights valid, with height 0 for the new slot.
    pub proof fn lemma_put_root_elem_ranked(self, h: Seq<nat>, elem: T, b: nat)
        requires
            self.wf(b),
            self.ranked(h),
            self.slots.len() < usize::MAX,
        ensures
            self.put_root_elem(elem, b).ranked(h.push(0)),
    {
        let after = self.put_root_elem(elem, b);
        let n = self.slots.len() as int;
        assert forall|p: int, k: int|
            0 <= p < after.slots.len() && 0 <= k < after.slots[p].children().len() && (
            #[trigger] after.child(p, k)) is Some implies p < n && k < self.slots[p].children().len()
            && self.child(p, k) == after.child(p, k) by {
            if p < n {
                assert(self.slots[p].children().len() == b);
            }
        }
        self.lemma_ranked_fewer_edges(h, after, seq![0nat]);
        assert(h + seq![0nat] =~= h.push(0));
    }

    /// Making a detached subtree the root leaves the heights valid.
    pub proof fn lemma_put_root_tree_ranked(self, h: Seq<nat>, s: int, b: nat)
        requires
            self.wf(b),
            self.ranked(h),
            self.is_present(s),
        ensures
            self.put_root_tree(s).ranked(h),
    {
        let after = self.put_root_tree(s);
        let n = self.slots.len() as int;
        assert forall|p: int, k: int|
            0 <= p < after.slots.len() && 0 <= k < after.slots[p].children().len() && (
            #[trigger] after.child(p, k)) is Some implies p < n && k < self.slots[p].children().len()
            && self.child(p, k) == after.child(p, k) by {
            if p < n {
                assert(self.slots[p].children().len() == b);
            }
        }
        self.lemma_ranked_fewer_edges(h, after, Seq::<nat>::empty());
        assert(h + Seq::<nat>::empty() =~= h);
    }

    /// Detaching the root leaves the heights valid.
    pub proof fn lemma_take_root_ranked(self, h: Seq<nat>, b: nat)
        requires
            self.wf(b),
            self.ranked(h),
        ensures
            self.take_root().ranked(h),
    {
        let after = self.take_root();
        let n = self.slots.len() as int;
        assert forall|p: int, k: int|
            0 <= p < after.slots.len() && 0 <= k < after.slots[p].children().len() && (
            #[trigger] after.child(p, k)) is Some implies p < n && k < self.slots[p].children().len()
            && self.child(p, k) == after.child(p, k) by {
            if p < n {
                assert(self.slots[p].children().len() == b);
            }
        }
        self.lemma_ranked_fewer_edges(h, after, Seq::<nat>::empty());
        assert(h + Seq::<nat>::empty() =~= h);
    }

    /// A new detached node leaves the heights valid, with height 0 for the new slot.
    pub proof fn lemma_new_detached_ranked(self, h: Seq<nat>, elem: T, b: nat)
        requires
            self.wf(b),
            self.ranked(h),
            self.slots.len() < usize::MAX,
        ensures
            self.new_detached(elem, b).ranked(h.push(0)),
    {
        let after = self.new_detached(elem, b);
        let n = self.slots.len() as int;
        assert forall|p: int, k: int|
            0 <= p < after.slots.len() && 0 <= k < after.slots[p].children().len() && (
            #[trigger] after.child(p, k)) is Some implies p < n && k < self.slots[p].children().len()
            && self.child(p, k) == after.child(p, k) by {
            if p < n {
                assert(self.slots[p].children().len() == b);
            }
        }
        self.lemma_ranked_fewer_edges(h, after, seq![0nat]);
        assert(h + seq![0nat] =~= h.push(0));
    }

    /// Detaching a node leaves the heights valid.
    pub proof fn lemma_detach_ranked(self, h: Seq<nat>, i: int, b: nat)
        requires
            self.wf(b),
            self.ranked(h),
            self.is_present(i),
        ensures
            self.detach(i).ranked(h),
    {
        let after = self.detach(i);
        let n = self.slots.len() as int;
        assert(self.tag_ok(i));
        assert forall|p: int, k: int|
            0 <= p < after.slots.len() && 0 <= k < after.slots[p].children().len() && (
            #[trigger] after.child(p, k)) is Some implies p < n && k < self.slots[p].children().len()
            && self.child(p, k) == after.child(p, k) by {
            if p < n {
                assert(self.slots[p].children().len() == b);
            }
        }
        self.lemma_ranked_fewer_edges(h, after, Seq::<nat>::empty());
        assert(h + Seq::<nat>::empty() =~= h);
    }

    /// Detaching a child leaves the heights valid.
    pub proof fn lemma_take_child_ranked(self, h: Seq<nat>, m: int, j: int, b: nat)
        requires
            self.wf(b),
            self.ranked(h),
            0 <= m < self.slots.len(),
            0 <= j < b,
        ensures
            self.take_child(m, j).ranked(h),
    {
        let after = self.take_child(m, j);
        let n = self.slots.len() as int;
        assert(self.slots[m].children().len() == b);
        assert(self.link_ok(m, j));
        assert forall|p: int, k: int|
            0 <= p < after.slots.len() && 0 <= k < after.slots[p].children().len() && (
            #[trigger] after.child(p, k)) is Some implies p < n && k < self.slots[p].children().len()
            && self.child(p, k) == after.child(p, k) by {
            if p < n {
                assert(self.slots[p].children().len() == b);
            }
        }
        self.lemma_ranked_fewer_edges(h, after, Seq::<nat>::empty());
        assert(h + Seq::<nat>::empty() =~= h);
    }

    /// Turning a node into garbage leaves the heights valid.
    pub proof fn lemma_discard_ranked(self, h: Seq<nat>, i: int, b: nat)
        requires
            self.wf(b),
            self.ranked(h),
            self.is_present(i),
        ensures
            self.discard(i).ranked(h),
    {
        let after = self.discard(i);
        let n = self.slots.len() as int;
        assert forall|p: int, k: int|
            0 <= p < after.slots.len() && 0 <= k < after.slots[p].children().len() && (
            #[trigger] after.child(p, k)) is Some implies p < n && k < self.slots[p].children().len()
            && self.child(p, k) == after.child(p, k) by {
            if p < n {
                assert(self.slots[p].children().len() == b);
            }
        }
        self.lemma_ranked_fewer_edges(h, after, Seq::<nat>::empty());
        assert(h + Seq::<nat>::empty() =~= h);
    }

    /// Putting the element that is there changes nothing.
    pub proof fn lemma_set_elem_same(self, i: int)
        requires
            self.is_present(i),
        ensures
            self.set_elem(i, self.elem(i)) == self,
    {
        assert(self.set_elem(i, self.elem(i)).slots =~= self.slots);
        assert(self.set_elem(i, self.elem(i)) =~= self);
    }

    /// Replacing an element leaves the heights valid.
    pub proof fn lemma_set_elem_ranked(self, h: Seq<nat>, i: int, elem: T)
        requires
            self.ranked(h),
            0 <= i < self.slots.len(),
        ensures
            self.set_elem(i, elem).ranked(h),
    {
        self.lemma_ranked_fewer_edges(h, self.set_elem(i, elem), Seq::empty());
        assert(h + Seq::<nat>::empty() =~= h);
    }

    /// The heights that fit the tree after a new node became the child at
    /// branch `j` of `m`.
    pub open spec fn heights_put_child_elem(self, h: Seq<nat>, m: int) -> Seq<nat> {
        self.raise(h, m, 1).push(0)
    }

    /// The heights that fit the tree after the subtree at `s` became a
    /// child of `m`.
    pub open spec fn heights_put_child_tree(self, h: Seq<nat>, m: int, s: int) -> Seq<nat> {
        self.raise(h, m, h[s] + 1)
    }

    /// A new child leaves no slot above itself.
    pub proof fn lemma_put_child_elem_ranked(self, h: Seq<nat>, m: int, j: int, elem: T, b: nat)
        requires
            self.wf(b),
            self.ranked(h),
            self.is_present(m),
            0 <= j < b,
            self.slots.len() < usize::MAX,
        ensures
            self.put_child_elem(m, j, elem, b).ranked(self.heights_put_child_elem(h, m)),
    {
        self.lemma_put_child_elem_wf(m, j, elem, b);
        assert(self.slots[m].children().len() == b);
        assert(self.link_ok(m, j));
        let after = self.put_child_elem(m, j, elem, b);
        let r = self.raise(h, m, 1);
        let hh = self.heights_put_child_elem(h, m);
        self.lemma_raise_ranked(h, m, 1, b);
        assert(self.ancestor(m, 0) == Some(m));
        assert(self.slots[m].children().len() == b);
        assert forall|p: int, k: int|
            0 <= p < after.slots.len() && 0 <= k < after.slots[p].children().len()
                implies #[trigger] after.edge_ranked(hh, p, k) by {
            assert(after.slots[p].children().len() == b);
            if p < self.slots.len() {
                assert(self.slots[p].children().len() == b);
                assert(self.edge_ranked(r, p, k));
                assert(self.link_ok(p, k));
                if p == m && k == j {
                    assert(after.child(p, k) == Some(self.slots.len() as usize));
                    assert(r[m] == h[m] + 1);
                } else {
                    assert(after.child(p, k) == self.child(p, k));
                }
            } else {
                assert(after.child(p, k) is None);
            }
        }
    }

    /// Attaching a subtree that does not lie above its new owner leaves no
    /// slot above itself.
    pub proof fn lemma_put_child_tree_ranked(self, h: Seq<nat>, m: int, j: int, s: int, b: nat)
        requires
            self.wf(b),
            self.ranked(h),
            self.is_present(m),
            0 <= j < b,
            self.is_present(s),
            self.tag(s) == ParentId::Detached,
            !self.has_ancestor(m, s),
        ensures
            self.put_child_tree(m, j, s).ranked(self.heights_put_child_tree(h, m, s)),
    {
        assert(self.ancestor(m, 0) == Some(m));
        self.lemma_put_child_tree_wf(m, j, s, b);
        assert(self.slots[m].children().len() == b);
        assert(self.link_ok(m, j));
        let after = self.put_child_tree(m, j, s);
        let hh = self.heights_put_child_tree(h, m, s);
        self.lemma_raise_ranked(h, m, h[s] + 1, b);
        assert(self.ancestor(m, 0) == Some(m));
        assert(self.slots[m].children().len() == b);
        assert forall|p: int, k: int|
            0 <= p < after.slots.len() && 0 <= k < after.slots[p].children().len()
                implies #[trigger] after.edge_ranked(hh, p, k) by {
            assert(after.slots.len() == self.slots.len());
            assert(after.slots[p].children().len() == b);
            assert(self.slots[p].children().len() == b);
            assert(self.edge_ranked(hh, p, k));
            if p == m && k == j {
                assert(after.child(p, k) == Some(s as usize));
                assert(hh[m] == h[m] + (h[s] + 1));
                assert(hh[s] == h[s]);
            } else {
                assert(after.child(p, k) == self.child(p, k));
            }
        }
    }
}

} // verus!
