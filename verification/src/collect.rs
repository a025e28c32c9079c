//! The relocating garbage collector, one removal at a time: what the
//! removal of a dead slot does to the store, and why the store invariant,
//! the heights and the nodes that stay survive it.

use crate::model::TreeView;
use crate::node::{ParentId, Slot};
use vstd::prelude::*;

verus! {

impl<T> TreeView<T> {
    /// The node at `i` is tagged as the child of `p` at a branch below `k`.
    pub open spec fn is_child_below(self, i: int, p: int, k: int) -> bool {
        self.slots[i] is Present && match self.tag(i) {
            ParentId::Attached { parent_index, this_branch } => parent_index == p && this_branch < k,
            _ => false,
        }
    }

    /// The child references of `p` and the tags that name `p` as owner
    /// mirror each other.
    pub open spec fn owns_children(self, p: int, b: nat) -> bool {
        &&& 0 <= p < self.slots.len()
        &&& self.slots[p].children().len() == b
        &&& forall|k: int| 0 <= k < b ==> #[trigger] self.link_ok(p, k)
        &&& forall|i: int|
            0 <= i < self.slots.len() && #[trigger] self.is_child_below(i, p, b as int)
                ==> self.child(p, self.tag(i)->this_branch as int) == Some(i as usize)
    }

    /// In a store that keeps its invariant every slot owns its children.
    pub proof fn lemma_owns_children(self, p: int, b: nat)
        requires
            self.linked(b),
            0 <= p < self.slots.len(),
        ensures
            self.owns_children(p, b),
    {
        assert(self.slots[p].children().len() == b);
        assert forall|k: int| 0 <= k < b implies #[trigger] self.link_ok(p, k) by {}
        assert forall|i: int|
            0 <= i < self.slots.len() && #[trigger] self.is_child_below(
                i,
                p,
                b as int,
            ) implies self.child(p, self.tag(i)->this_branch as int) == Some(i as usize) by {
            assert(self.tag_ok(i));
        }
    }

    /// The slots after the children of `g` at the branches below `k` got
    /// the tag of garbage collection.
    pub open spec fn children_marked(self, g: int, k: int) -> Seq<Slot<T>> {
        Seq::new(
            self.slots.len(),
            |i: int|
                if self.is_child_below(i, g, k) {
                    self.slots[i].with_parent(ParentId::Garbage)
                } else {
                    self.slots[i]
                },
        )
    }

    /// The slots after the children of `from` at the branches below `k`
    /// were tagged as children of `to`.
    pub open spec fn children_moved(self, from: int, to: int, k: int) -> Seq<Slot<T>> {
        Seq::new(
            self.slots.len(),
            |i: int|
                if self.is_child_below(i, from, k) {
                    self.slots[i].with_parent(
                        ParentId::Attached {
                            parent_index: to as usize,
                            this_branch: self.tag(i)->this_branch,
                        },
                    )
                } else {
                    self.slots[i]
                },
        )
    }

    /// The same tree with other slots.
    pub open spec fn with_slots(self, slots: Seq<Slot<T>>) -> Self {
        TreeView { slots, ..self }
    }

    /// What names the node at `from` names `to` instead: the child
    /// reference of its owner, or the root position.
    pub open spec fn owner_moved(self, from: int, to: int) -> Self {
        if self.is_node(from) {
            match self.tag(from) {
                ParentId::Attached { parent_index, this_branch } => self.set_child(
                    parent_index as int,
                    this_branch as int,
                    Some(to as usize),
                ),
                ParentId::Root => self.set_root(Some(to as usize)),
                _ => self,
            }
        } else {
            self
        }
    }

    /// The slots after the slot at `g` was removed and the last slot took
    /// its place.
    pub open spec fn slot_removed(self, g: int) -> Seq<Slot<T>> {
        if g == self.slots.len() - 1 {
            self.slots.drop_last()
        } else {
            self.slots.drop_last().update(g, self.slots.last())
        }
    }

    /// The tree that is ready for the removal of the slot at `g`: the
    /// children of `g` are marked, and what named the last slot names `g`.
    pub open spec fn prepared(self, g: int, b: nat) -> Self {
        let last = self.slots.len() - 1;
        let marked = self.with_slots(self.children_marked(g, b as int));
        if g == last {
            marked
        } else {
            marked.with_slots(marked.children_moved(last, g, b as int)).owner_moved(last, g)
        }
    }

    /// The slots and the root after one removal by the collector.
    pub open spec fn collected(self, g: int, b: nat) -> Self {
        let ready = self.prepared(g, b);
        ready.with_slots(ready.slot_removed(g))
    }

    /// The heights after the removal of the slot at `g`.
    pub open spec fn heights_collected(self, h: Seq<nat>, g: int) -> Seq<nat> {
        if g == h.len() - 1 {
            h.drop_last()
        } else {
            h.drop_last().update(g, h.last())
        }
    }

    /// Nothing names a dead slot: no child reference and not the root.
    pub proof fn lemma_dead_is_unnamed(self, g: int, b: nat)
        requires
            self.linked(b),
            0 <= g < self.slots.len(),
            self.slots[g].is_dead(),
        ensures
            self.root != Some(g as usize),
            forall|p: int, k: int|
                0 <= p < self.slots.len() && 0 <= k < b ==> #[trigger] self.child(p, k) != Some(
                    g as usize,
                ),
    {
        assert forall|p: int, k: int| 0 <= p < self.slots.len() && 0 <= k < b implies #[trigger] self.child(
            p,
            k,
        ) != Some(g as usize) by {
            assert(self.slots[p].children().len() == b);
            assert(self.link_ok(p, k));
        }
    }

    /// No node is its own child.
    pub proof fn lemma_no_self_link(self, h: Seq<nat>, p: int, k: int, b: nat)
        requires
            self.linked(b),
            self.ranked(h),
            0 <= p < self.slots.len(),
            0 <= k < b,
        ensures
            self.child(p, k) != Some(p as usize),
    {
        assert(self.slots[p].children().len() == b);
        assert(self.edge_ranked(h, p, k));
    }

    /// The last slot holds a node that stays a node when the slot at `g` is
    /// removed, so that what names it has to name `g` instead.
    pub open spec fn moving(self, g: int, b: nat) -> bool {
        let last = self.slots.len() - 1;
        g != last && self.is_node(last) && !self.is_child_below(last, g, b as int)
    }

    /// The parent tag of the node at `i` in the prepared tree.
    pub open spec fn prepared_tag(self, i: int, g: int, b: nat) -> ParentId {
        let last = self.slots.len() - 1;
        if self.is_child_below(i, g, b as int) {
            ParentId::Garbage
        } else if g != last && self.is_child_below(i, last, b as int) {
            ParentId::Attached { parent_index: g as usize, this_branch: self.tag(i)->this_branch }
        } else {
            self.tag(i)
        }
    }

    /// The child reference at branch `k` of slot `i` in the prepared tree.
    pub open spec fn prepared_child(self, i: int, k: int, g: int, b: nat) -> Option<usize> {
        let last = self.slots.len() - 1;
        if self.moving(g, b) && self.tag(last) == (ParentId::Attached {
            parent_index: i as usize,
            this_branch: k as usize,
        }) {
            Some(g as usize)
        } else {
            self.child(i, k)
        }
    }

    /// The root position in the prepared tree.
    pub open spec fn prepared_root(self, g: int, b: nat) -> Option<usize> {
        let last = self.slots.len() - 1;
        if self.moving(g, b) && self.tag(last) == ParentId::Root {
            Some(g as usize)
        } else {
            self.root
        }
    }

    /// `ready` is the prepared tree, told slot by slot.
    pub open spec fn is_prepared(self, ready: Self, g: int, b: nat) -> bool {
        &&& ready.slots.len() == self.slots.len()
        &&& ready.pending == self.pending
        &&& ready.root == self.prepared_root(g, b)
        &&& forall|i: int|
            0 <= i < self.slots.len() ==> {
                &&& (#[trigger] ready.slots[i]) is Present == self.slots[i] is Present
                &&& ready.slots[i].children().len() == b
                &&& ready.slots[i] is Present ==> ready.elem(i) == self.elem(i)
                &&& ready.slots[i] is Present ==> ready.tag(i) == self.prepared_tag(i, g, b)
                &&& forall|k: int|
                    0 <= k < b ==> #[trigger] ready.child(i, k) == self.prepared_child(i, k, g, b)
            }
    }

    /// What the preparation does to each slot and to the root.
    pub proof fn lemma_prepared(self, h: Seq<nat>, g: int, b: nat)
        requires
            self.linked(b),
            self.ranked(h),
            0 <= g < self.slots.len(),
            self.slots[g].is_dead(),
        ensures
            self.is_prepared(self.prepared(g, b), g, b),
    {
        let ready = self.prepared(g, b);
        let last = self.slots.len() - 1;
        let marked = self.with_slots(self.children_marked(g, b as int));
        assert(self.tag_ok(last));
        assert(self.slots[last].children().len() == b);
        if g != last {
            let moved = marked.with_slots(marked.children_moved(last, g, b as int));
            if self.slots[last] is Present {
                match self.tag(last) {
                    ParentId::Attached { parent_index, this_branch } => {
                        self.lemma_no_self_link(h, last, this_branch as int, b);
                        assert(self.slots[parent_index as int].children().len() == b);
                    },
                    _ => {},
                }
            }
            assert forall|i: int| 0 <= i < self.slots.len() implies {
                &&& (#[trigger] ready.slots[i]) is Present == self.slots[i] is Present
                &&& ready.slots[i].children().len() == b
                &&& ready.slots[i] is Present ==> ready.elem(i) == self.elem(i)
                &&& ready.slots[i] is Present ==> ready.tag(i) == self.prepared_tag(i, g, b)
                &&& forall|k: int|
                    0 <= k < b ==> #[trigger] ready.child(i, k) == self.prepared_child(i, k, g, b)
            } by {
                assert(self.slots[i].children().len() == b);
                assert(moved.slots[i].children() == self.slots[i].children());
            }
        } else {
            assert forall|i: int| 0 <= i < self.slots.len() implies {
                &&& (#[trigger] ready.slots[i]) is Present == self.slots[i] is Present
                &&& ready.slots[i].children().len() == b
            } by {
                assert(self.slots[i].children().len() == b);
            }
        }
    }

    /// The position that the slot at `i` had before the removal of the
    /// slot at `g`.
    pub open spec fn before_removal(self, i: int, g: int) -> int {
        if i == g {
            self.slots.len() - 1
        } else {
            i
        }
    }

    /// One removal keeps the mirror of child references and parent tags,
    /// keeps every child below its owner, and makes no node the root of a
    /// detached subtree.
    pub proof fn lemma_collected_linked(self, h: Seq<nat>, g: int, b: nat)
        requires
            self.linked(b),
            self.ranked(h),
            self.no_detached(),
            0 <= g < self.slots.len(),
            self.slots[g].is_dead(),
        ensures
            self.collected(g, b).linked(b),
            self.collected(g, b).ranked(self.heights_collected(h, g)),
            self.collected(g, b).no_detached(),
            self.collected(g, b).slots.len() == self.slots.len() - 1,
    {
        let ready = self.prepared(g, b);
        let after = self.collected(g, b);
        let hh = self.heights_collected(h, g);
        let last = self.slots.len() - 1;
        self.lemma_prepared(h, g, b);
        self.lemma_dead_is_unnamed(g, b);
        assert(self.tag_ok(last));
        assert forall|i: int| 0 <= i < after.slots.len() implies (
        #[trigger] after.slots[i]).children().len() == b by {
            let i0 = self.before_removal(i, g);
            assert(ready.slots[i0].children().len() == b);
        }
        assert forall|p: int, k: int|
            0 <= p < after.slots.len() && 0 <= k < after.slots[p].children().len()
                implies #[trigger] after.link_ok(p, k) && after.edge_ranked(hh, p, k) by {
            let p_was = self.before_removal(p, g);
            assert(after.slots[p] == ready.slots[p_was]);
            assert(ready.slots[p_was].children().len() == b);
            assert(self.slots[p_was].children().len() == b);
            assert(after.child(p, k) == ready.child(p_was, k));
            assert(ready.child(p_was, k) == self.prepared_child(p_was, k, g, b));
            assert(self.link_ok(p_was, k));
            assert(self.edge_ranked(h, p_was, k));
            self.lemma_no_self_link(h, p_was, k, b);
            if after.child(p, k) is Some {
                let c = after.child(p, k).unwrap() as int;
                let c0 = self.before_removal(c, g);
                assert(self.tag_ok(c0));
                assert(after.slots[c] == ready.slots[c0]);
            }
        }
        assert forall|p: int, k: int|
            0 <= p < after.slots.len() && 0 <= k < after.slots[p].children().len()
                implies #[trigger] after.edge_ranked(hh, p, k) by {
            assert(after.link_ok(p, k));
        }
        assert forall|c: int| 0 <= c < after.slots.len() implies #[trigger] after.tag_ok(c) by {
            let c0 = self.before_removal(c, g);
            assert(after.slots[c] == ready.slots[c0]);
            assert(self.tag_ok(c0));
            if self.slots[c0] is Present {
                match self.tag(c0) {
                    ParentId::Attached { parent_index, this_branch } => {
                        let p_was = parent_index as int;
                        assert(self.slots[p_was].children().len() == b);
                        assert(self.link_ok(p_was, this_branch as int));
                        self.lemma_no_self_link(h, p_was, this_branch as int, b);
                        if p_was != g {
                            let p = if p_was == last { g } else { p_was };
                            assert(after.slots[p] == ready.slots[p_was]);
                            assert(ready.child(p_was, this_branch as int) == self.prepared_child(
                                p_was,
                                this_branch as int,
                                g,
                                b,
                            ));
                        }
                    },
                    _ => {},
                }
            }
        }
        assert forall|i: int|
            0 <= i < after.slots.len() && (#[trigger] after.slots[i]) is Present implies after.tag(i)
            != ParentId::Detached by {
            let i0 = self.before_removal(i, g);
            assert(after.slots[i] == ready.slots[i0]);
            assert(self.slots[i0] is Present ==> self.tag(i0) != ParentId::Detached);
        }
        assert(after.root_ok()) by {
            if self.root is Some {
                let r0 = self.root.unwrap() as int;
                assert(self.tag_ok(r0));
                let r = if r0 == last { g } else { r0 };
                assert(after.slots[r] == ready.slots[r0]);
            }
        }
    }

    /// One removal makes no slot dead but the children of the removed slot.
    pub proof fn lemma_collected_dead(self, h: Seq<nat>, g: int, i: int, b: nat)
        requires
            self.linked(b),
            self.ranked(h),
            0 <= g < self.slots.len(),
            self.slots[g].is_dead(),
            0 <= i < self.slots.len() - 1,
            self.collected(g, b).slots[i].is_dead(),
        ensures
            ({
                let i0 = self.before_removal(i, g);
                self.slots[i0].is_dead() || self.is_child_below(i0, g, b as int)
            }),
    {
        self.lemma_prepared(h, g, b);
        let i0 = self.before_removal(i, g);
        assert(self.collected(g, b).slots[i] == self.prepared(g, b).slots[i0]);
    }

    /// The node at `i` is the node that `start` has at `origin[i]`: the
    /// same element, the same owner and the same children, each named by
    /// its position in `self`.
    pub open spec fn node_kept(self, start: Self, origin: Seq<int>, i: int, b: nat) -> bool {
        self.is_node(i) ==> {
            let o = origin[i];
            &&& start.is_node(o)
            &&& start.elem(o) == self.elem(i)
            &&& match self.tag(i) {
                ParentId::Attached { parent_index, this_branch } => {
                    &&& parent_index < self.slots.len()
                    &&& start.tag(o) == ParentId::Attached {
                        parent_index: origin[parent_index as int] as usize,
                        this_branch,
                    }
                },
                ParentId::Root => start.tag(o) == ParentId::Root,
                ParentId::Detached => start.tag(o) == ParentId::Detached,
                ParentId::Garbage => true,
            }
            &&& forall|k: int|
                0 <= k < b ==> match #[trigger] self.child(i, k) {
                    Some(c) => c < self.slots.len() && start.child(o, k) == Some(
                        origin[c as int] as usize,
                    ),
                    None => start.child(o, k) is None,
                }
        }
    }

    /// The nodes of `self` are nodes of `start` at other positions:
    /// `origin[i]` is the position in `start` of the node at `i`. Distinct
    /// positions have distinct origins, the root is the same node, and each
    /// node has kept its element, its owner and its children.
    pub open spec fn kept_from(self, start: Self, origin: Seq<int>, b: nat) -> bool {
        &&& origin.len() == self.slots.len()
        &&& forall|i: int|
            0 <= i < self.slots.len() ==> 0 <= #[trigger] origin[i] < start.slots.len()
        &&& forall|i: int, j: int|
            0 <= i < j < self.slots.len() ==> #[trigger] origin[i] != #[trigger] origin[j]
        &&& match self.root {
            Some(r) => r < self.slots.len() && start.root == Some(origin[r as int] as usize),
            None => start.root is None,
        }
        &&& forall|i: int|
            0 <= i < self.slots.len() ==> #[trigger] self.node_kept(start, origin, i, b)
    }

    /// The nodes of `self` are nodes of `start`, at the same or at other
    /// positions, with the same root.
    pub open spec fn relocated_from(self, start: Self, b: nat) -> bool {
        exists|origin: Seq<int>| #[trigger] self.kept_from(start, origin, b)
    }

    /// Every node of a tree is that node itself.
    pub proof fn lemma_kept_from_self(self, b: nat)
        requires
            self.linked(b),
        ensures
            self.kept_from(self, Seq::new(self.slots.len(), |i: int| i), b),
    {
        let origin = Seq::new(self.slots.len(), |i: int| i);
        assert forall|i: int| 0 <= i < self.slots.len() implies #[trigger] self.node_kept(
            self,
            origin,
            i,
            b,
        ) by {
            assert(self.tag_ok(i));
            assert(self.slots[i].children().len() == b);
            assert forall|k: int| 0 <= k < b implies match #[trigger] self.child(i, k) {
                Some(c) => c < self.slots.len() && self.child(origin[i], k) == Some(
                    origin[c as int] as usize,
                ),
                None => self.child(origin[i], k) is None,
            } by {
                assert(self.link_ok(i, k));
            }
        }
    }

    /// One removal keeps the nodes that are not dead.
    pub proof fn lemma_collected_kept(
        self,
        h: Seq<nat>,
        g: int,
        start: Self,
        origin: Seq<int>,
        b: nat,
    )
        requires
            self.linked(b),
            self.ranked(h),
            0 <= g < self.slots.len(),
            self.slots[g].is_dead(),
            self.kept_from(start, origin, b),
        ensures
            self.collected(g, b).kept_from(
                start,
                if g == origin.len() - 1 {
                    origin.drop_last()
                } else {
                    origin.drop_last().update(g, origin.last())
                },
                b,
            ),
    {
        let ready = self.prepared(g, b);
        let after = self.collected(g, b);
        let last = self.slots.len() - 1;
        let moved = if g == origin.len() - 1 {
            origin.drop_last()
        } else {
            origin.drop_last().update(g, origin.last())
        };
        self.lemma_prepared(h, g, b);
        self.lemma_dead_is_unnamed(g, b);
        assert(self.tag_ok(last));
        assert forall|i: int| 0 <= i < after.slots.len() implies 0 <= #[trigger] moved[i]
            < start.slots.len() by {
            assert(moved[i] == origin[self.before_removal(i, g)]);
        }
        assert forall|i: int, j: int| 0 <= i < j < after.slots.len() implies #[trigger] moved[i]
            != #[trigger] moved[j] by {
            let i0 = self.before_removal(i, g);
            let j0 = self.before_removal(j, g);
            assert(moved[i] == origin[i0]);
            assert(moved[j] == origin[j0]);
            if i0 < j0 {
                assert(origin[i0] != origin[j0]);
            } else {
                assert(origin[j0] != origin[i0]);
            }
        }
        if self.root is Some {
            assert(self.tag_ok(self.root.unwrap() as int));
        }
        assert forall|i: int| 0 <= i < after.slots.len() implies #[trigger] after.node_kept(
            start,
            moved,
            i,
            b,
        ) by {
            let i0 = self.before_removal(i, g);
            assert(after.slots[i] == ready.slots[i0]);
            assert(moved[i] == origin[i0]);
            assert(self.node_kept(start, origin, i0, b));
            assert(self.tag_ok(i0));
            assert(self.slots[i0].children().len() == b);
            if after.is_node(i) {
                let o = moved[i];
                assert forall|k: int| 0 <= k < b implies match #[trigger] after.child(i, k) {
                    Some(c) => c < after.slots.len() && start.child(o, k) == Some(
                        moved[c as int] as usize,
                    ),
                    None => start.child(o, k) is None,
                } by {
                    assert(after.child(i, k) == ready.child(i0, k));
                    assert(ready.child(i0, k) == self.prepared_child(i0, k, g, b));
                    assert(self.link_ok(i0, k));
                    if self.child(i0, k) is Some {
                        let c0 = self.child(i0, k).unwrap() as int;
                        assert(self.tag_ok(c0));
                        if c0 != last {
                            assert(moved[c0] == origin[c0]);
                        }
                    }
                    self.lemma_no_self_link(h, i0, k, b);
                }
            }
        }
    }

    /// After the children of `g` were marked, every other slot still owns
    /// its children.
    pub proof fn lemma_marked_owns_children(self, g: int, p: int, b: nat)
        requires
            self.linked(b),
            0 <= g < self.slots.len(),
            0 <= p < self.slots.len(),
            p != g,
        ensures
            self.with_slots(self.children_marked(g, b as int)).owns_children(p, b),
    {
        let marked = self.with_slots(self.children_marked(g, b as int));
        self.lemma_owns_children(p, b);
        assert forall|k: int| 0 <= k < b implies #[trigger] marked.link_ok(p, k) by {
            assert(self.link_ok(p, k));
        }
        assert forall|i: int|
            0 <= i < marked.slots.len() && #[trigger] marked.is_child_below(
                i,
                p,
                b as int,
            ) implies marked.child(p, marked.tag(i)->this_branch as int) == Some(i as usize) by {
            assert(self.is_child_below(i, p, b as int));
        }
    }

    /// What holds of the slots and the root of one tree holds of every
    /// tree with the same slots and the same root.
    pub proof fn lemma_same_store(
        self,
        other: Self,
        h: Seq<nat>,
        start: Self,
        origin: Seq<int>,
        b: nat,
    )
        requires
            self.slots == other.slots,
            self.root == other.root,
            other.linked(b),
            other.ranked(h),
            other.no_detached(),
            other.kept_from(start, origin, b),
        ensures
            self.linked(b),
            self.ranked(h),
            self.no_detached(),
            self.kept_from(start, origin, b),
    {
        assert forall|p: int, k: int|
            0 <= p < self.slots.len() && 0 <= k < self.slots[p].children().len()
                implies #[trigger] self.link_ok(p, k) by {
            assert(other.link_ok(p, k));
        }
        assert forall|p: int, k: int|
            0 <= p < self.slots.len() && 0 <= k < self.slots[p].children().len()
                implies #[trigger] self.edge_ranked(h, p, k) by {
            assert(other.edge_ranked(h, p, k));
        }
        assert forall|c: int| 0 <= c < self.slots.len() implies #[trigger] self.tag_ok(c) by {
            assert(other.tag_ok(c));
        }
        assert forall|i: int| 0 <= i < self.slots.len() implies #[trigger] self.node_kept(
            start,
            origin,
            i,
            b,
        ) by {
            assert(other.node_kept(start, origin, i, b));
            if self.is_node(i) {
                assert forall|k: int| 0 <= k < b implies match #[trigger] self.child(i, k) {
                    Some(c) => c < self.slots.len() && start.child(origin[i], k) == Some(
                        origin[c as int] as usize,
                    ),
                    None => start.child(origin[i], k) is None,
                } by {
                    assert(self.child(i, k) == other.child(i, k));
                }
            }
        }
    }

    /// The removal does to the slots and the root the same, whatever waits
    /// for removal.
    pub proof fn lemma_collected_same(self, other: Self, g: int, b: nat)
        requires
            self.slots == other.slots,
            self.root == other.root,
        ensures
            self.collected(g, b).slots == other.collected(g, b).slots,
            self.collected(g, b).root == other.collected(g, b).root,
    {
        let last = self.slots.len() - 1;
        assert(self.children_marked(g, b as int) =~= other.children_marked(g, b as int));
        let m1 = self.with_slots(self.children_marked(g, b as int));
        let m2 = other.with_slots(other.children_marked(g, b as int));
        assert(m1.children_moved(last, g, b as int) =~= m2.children_moved(last, g, b as int));
    }

    /// Turning the root of a detached subtree into garbage keeps the other
    /// nodes.
    pub proof fn lemma_discard_kept(self, start: Self, origin: Seq<int>, i: int, b: nat)
        requires
            self.kept_from(start, origin, b),
            self.is_detached(i),
        ensures
            self.discard(i).kept_from(start, origin, b),
    {
        let after = self.discard(i);
        assert forall|j: int| 0 <= j < after.slots.len() implies #[trigger] after.node_kept(
            start,
            origin,
            j,
            b,
        ) by {
            assert(self.node_kept(start, origin, j, b));
            if after.is_node(j) {
                assert(after.slots[j] == self.slots[j]);
                assert forall|k: int| 0 <= k < b implies match #[trigger] after.child(j, k) {
                    Some(c) => c < after.slots.len() && start.child(origin[j], k) == Some(
                        origin[c as int] as usize,
                    ),
                    None => start.child(origin[j], k) is None,
                } by {
                    assert(after.child(j, k) == self.child(j, k));
                }
            }
        }
    }
}

} // verus!
