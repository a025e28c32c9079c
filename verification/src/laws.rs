//! Laws of the tree that relate several operations or hold of every state.

use crate::model::TreeView;
use crate::node::ParentId;
use vstd::prelude::*;

verus! {

impl<T> TreeView<T> {
    /// The tree has a root position exactly if some slot holds a node
    /// tagged as root, and then the root position is the only such slot.
    pub proof fn lemma_root_is_the_one_root_slot(self, b: nat)
        requires
            self.linked(b),
        ensures
            self.root is Some <==> exists|i: int|
                self.is_present(i) && #[trigger] self.tag(i) == ParentId::Root,
            forall|i: int|
                self.is_present(i) && #[trigger] self.tag(i) == ParentId::Root ==> self.root
                    == Some(i as usize),
    {
        assert forall|i: int|
            self.is_present(i) && #[trigger] self.tag(i) == ParentId::Root implies self.root
            == Some(i as usize) by {
            assert(self.tag_ok(i));
        }
        if self.root is Some {
            let r = self.root.unwrap() as int;
            assert(self.is_present(r) && self.tag(r) == ParentId::Root);
        }
    }

    /// Parent tags and child references mirror each other: the slot that a
    /// node's tag names as its owner references the node at the branch that
    /// the tag gives, and what a child reference names is a node whose tag
    /// names the referencing slot and the branch.
    pub proof fn lemma_parent_child_mirror(self, b: nat)
        requires
            self.linked(b),
        ensures
            forall|c: int|
                self.is_present(c) && (#[trigger] self.tag(c)) is Attached ==> {
                    let p = self.tag(c)->parent_index;
                    let k = self.tag(c)->this_branch;
                    p < self.slots.len() && k < b && self.child(p as int, k as int) == Some(
                        c as usize,
                    )
                },
            forall|p: int, k: int|
                0 <= p < self.slots.len() && 0 <= k < b && (#[trigger] self.child(p, k)) is Some
                    ==> self.is_present(self.child(p, k).unwrap() as int) && self.tag(
                    self.child(p, k).unwrap() as int,
                ) == (ParentId::Attached { parent_index: p as usize, this_branch: k as usize }),
    {
        assert forall|c: int|
            self.is_present(c) && (#[trigger] self.tag(c)) is Attached implies {
            let p = self.tag(c)->parent_index;
            let k = self.tag(c)->this_branch;
            p < self.slots.len() && k < b && self.child(p as int, k as int) == Some(c as usize)
        } by {
            assert(self.tag_ok(c));
            assert(self.slots[self.tag(c)->parent_index as int].children().len() == b);
        }
        assert forall|p: int, k: int|
            0 <= p < self.slots.len() && 0 <= k < b && (#[trigger] self.child(p, k))
                is Some implies self.is_present(self.child(p, k).unwrap() as int) && self.tag(
            self.child(p, k).unwrap() as int,
        ) == (ParentId::Attached { parent_index: p as usize, this_branch: k as usize }) by {
            assert(self.slots[p].children().len() == b);
            assert(self.link_ok(p, k));
        }
    }

    /// Where no slot is garbage, the owner that a node's tag names is a
    /// node.
    pub proof fn lemma_owner_is_a_node(self, c: int, b: nat)
        requires
            self.linked(b),
            self.no_garbage(),
            self.is_present(c),
        ensures
            match self.parent_of(c) {
                Some(p) => self.is_present(p),
                None => true,
            },
    {
        assert(self.tag_ok(c));
        if self.parent_of(c) is Some {
            let p = self.parent_of(c).unwrap();
            assert(!self.slots[p].is_dead());
        }
    }

    /// Every node of `after` was a node of `self`, at the same position and
    /// with the same element.
    pub open spec fn keeps_positions(self, after: Self) -> bool {
        &&& self.slots.len() <= after.slots.len()
        &&& forall|i: int|
            0 <= i < self.slots.len() && #[trigger] after.is_present(i) ==> self.is_present(i)
                && after.elem(i) == self.elem(i)
    }

    /// No operation but garbage collection moves a node or changes an
    /// element: a position that names a node after the operation named the
    /// same node, with the same element, before it.
    pub proof fn lemma_operations_keep_positions(
        self,
        n: int,
        k: int,
        s: int,
        elem: T,
        b: nat,
    )
        requires
            self.wf(b),
            self.is_present(n),
            0 <= k < b,
            self.is_present(s),
        ensures
            self.keeps_positions(self.take_root()),
            self.keeps_positions(self.put_root_elem(elem, b)),
            self.keeps_positions(self.put_root_tree(s)),
            self.keeps_positions(self.new_detached(elem, b)),
            self.keeps_positions(self.detach(n)),
            self.keeps_positions(self.take_child(n, k)),
            self.keeps_positions(self.put_child_elem(n, k, elem, b)),
            self.keeps_positions(self.put_child_tree(n, k, s)),
            self.keeps_positions(self.discard(n)),
    {
        assert(self.slots[n].children().len() == b);
        assert(self.link_ok(n, k));
        assert(self.tag_ok(n));
    }

    /// Detaching a child and attaching it again at the same branch leaves
    /// the tree as it was.
    pub proof fn lemma_take_then_put_is_identity(self, n: int, k: int, b: nat)
        requires
            self.wf(b),
            0 <= n < self.slots.len(),
            0 <= k < b,
            self.child(n, k) is Some,
        ensures
            self.take_child(n, k).put_child_tree(n, k, self.child(n, k).unwrap() as int) == self,
    {
        let c = self.child(n, k).unwrap() as int;
        let taken = self.take_child(n, k);
        let back = taken.put_child_tree(n, k, c);
        assert(self.slots[n].children().len() == b);
        assert(self.link_ok(n, k));
        assert(taken.child(n, k) is None);
        assert(back.slots.len() == self.slots.len());
        assert forall|i: int| 0 <= i < self.slots.len() implies back.slots[i] == self.slots[i] by {
            if i == n {
                assert(back.slots[n].children() =~= self.slots[n].children());
            }
        }
        assert(back.slots =~= self.slots);
        assert(back =~= self);
    }

    /// What `put_child_elem` displaces is garbage at once: the displaced
    /// child has lost its element, waits for removal, and is named by no
    /// child reference and not by the root position.
    pub proof fn lemma_displaced_child_is_garbage(self, n: int, k: int, elem: T, b: nat)
        requires
            self.wf(b),
            self.is_present(n),
            0 <= k < b,
            self.slots.len() < usize::MAX,
            self.child(n, k) is Some,
        ensures
            ({
                let after = self.put_child_elem(n, k, elem, b);
                let c = self.child(n, k).unwrap();
                &&& after.slots[c as int] is Garbage
                &&& after.pending.contains(c)
                &&& after.root != Some(c)
                &&& forall|p: int, j: int|
                    0 <= p < after.slots.len() && 0 <= j < b ==> #[trigger] after.child(p, j)
                        != Some(c)
            }),
    {
        let after = self.put_child_elem(n, k, elem, b);
        let c = self.child(n, k).unwrap();
        self.lemma_put_child_elem_wf(n, k, elem, b);
        assert(self.slots[n].children().len() == b);
        assert(self.link_ok(n, k));
        crate::model::lemma_push_contains(self.pending, c);
        assert(after.waits_if_dead(c as int));
        after.lemma_dead_is_unnamed(c as int, b);
    }

    /// Where a node of the collected tree `self` comes from a position of
    /// `start`, every position that is reached from there by going up in
    /// `start` is where a node of the collected tree comes from.
    pub proof fn lemma_origin_chain(self, start: Self, origin: Seq<int>, i: int, steps: nat, b: nat)
        requires
            self.linked(b),
            self.no_garbage(),
            self.kept_from(start, origin, b),
            start.slots.len() <= usize::MAX,
            0 <= i < self.slots.len(),
            start.ancestor(origin[i], steps) is Some,
        ensures
            exists|i2: int|
                0 <= i2 < self.slots.len() && #[trigger] origin[i2] == start.ancestor(
                    origin[i],
                    steps,
                ).unwrap(),
        decreases steps,
    {
        if steps == 0 {
            assert(origin[i] == start.ancestor(origin[i], 0).unwrap());
        } else {
            let up = start.ancestor(origin[i], (steps - 1) as nat);
            assert(up is Some);
            self.lemma_origin_chain(start, origin, i, (steps - 1) as nat, b);
            let i1 = choose|i1: int|
                0 <= i1 < self.slots.len() && #[trigger] origin[i1] == up.unwrap();
            assert(self.node_kept(start, origin, i1, b));
            assert(!self.slots[i1].is_dead());
            assert(self.tag_ok(i1));
            match self.tag(i1) {
                ParentId::Attached { parent_index, .. } => {
                    let p = parent_index as int;
                    assert(0 <= origin[p] < start.slots.len());
                    assert(origin[p] == start.ancestor(origin[i], steps).unwrap());
                },
                _ => {},
            }
        }
    }

    /// What lies below a slot that is not a node is not kept by a garbage
    /// collection: no node of the collected tree `self` comes from a
    /// position of `start` from which going up leads to such a slot.
    pub proof fn lemma_below_garbage_is_collected(
        self,
        start: Self,
        origin: Seq<int>,
        g: int,
        j: int,
        steps: nat,
        b: nat,
    )
        requires
            self.linked(b),
            self.no_garbage(),
            self.kept_from(start, origin, b),
            start.slots.len() <= usize::MAX,
            !start.is_node(g),
            start.ancestor(j, steps) == Some(g),
        ensures
            forall|i: int| 0 <= i < self.slots.len() ==> #[trigger] origin[i] != j,
    {
        assert forall|i: int| 0 <= i < self.slots.len() implies #[trigger] origin[i] != j by {
            if origin[i] == j {
                self.lemma_origin_chain(start, origin, i, steps, b);
                let i2 = choose|i2: int| 0 <= i2 < self.slots.len() && #[trigger] origin[i2] == g;
                assert(self.node_kept(start, origin, i2, b));
                assert(!self.slots[i2].is_dead());
            }
        }
    }

    /// In a tree without garbage and without detached subtrees every node
    /// hangs on the root: going up from it leads to the root.
    pub proof fn lemma_clean_tree_hangs_on_root(self, h: Seq<nat>, i: int, bound: nat, b: nat)
        requires
            self.linked(b),
            self.ranked(h),
            self.is_clean(),
            0 <= i < self.slots.len(),
            forall|j: int| 0 <= j < h.len() ==> #[trigger] h[j] <= bound,
        ensures
            self.root is Some,
            self.has_ancestor(i, self.root.unwrap() as int),
        decreases bound - h[i],
    {
        assert(!self.slots[i].is_dead());
        assert(self.slots[i] is Present ==> self.tag(i) != ParentId::Detached);
        assert(self.tag_ok(i));
        match self.tag(i) {
            ParentId::Attached { parent_index, this_branch } => {
                let p = parent_index as int;
                assert(self.slots[p].children().len() == b);
                assert(self.edge_ranked(h, p, this_branch as int));
                self.lemma_clean_tree_hangs_on_root(h, p, bound, b);
                let steps = choose|steps: nat|
                    self.ancestor(p, steps) == Some(self.root.unwrap() as int);
                self.lemma_ancestor_of_owner(i, steps);
            },
            _ => {
                assert(self.ancestor(i, 0) == Some(i));
            },
        }
    }

    /// The greatest of the heights `h`, or 0 where there is none.
    pub open spec fn greatest(h: Seq<nat>) -> nat
        decreases h.len(),
    {
        if h.len() == 0 {
            0
        } else if h.last() >= Self::greatest(h.drop_last()) {
            h.last()
        } else {
            Self::greatest(h.drop_last())
        }
    }

    /// No height is greater than the greatest.
    pub proof fn lemma_greatest(h: Seq<nat>)
        ensures
            forall|j: int| 0 <= j < h.len() ==> #[trigger] h[j] <= Self::greatest(h),
        decreases h.len(),
    {
        if h.len() > 0 {
            Self::lemma_greatest(h.drop_last());
            assert forall|j: int| 0 <= j < h.len() implies #[trigger] h[j] <= Self::greatest(h) by {
                if j < h.len() - 1 {
                    assert(h.drop_last()[j] == h[j]);
                }
            }
        }
    }

    /// What a garbage collection leaves is the tree of the root and no
    /// more: a tree without garbage and without detached subtrees has a
    /// root unless it has no slot, and every slot holds a node that hangs
    /// on the root.
    pub proof fn lemma_clean_tree_is_the_tree_of_the_root(self, h: Seq<nat>, b: nat)
        requires
            self.linked(b),
            self.ranked(h),
            self.is_clean(),
        ensures
            self.root is None ==> self.slots.len() == 0,
            forall|i: int|
                0 <= i < self.slots.len() ==> self.is_present(i) && #[trigger] self.has_ancestor(
                    i,
                    self.root.unwrap() as int,
                ),
    {
        Self::lemma_greatest(h);
        if self.slots.len() > 0 {
            self.lemma_clean_tree_hangs_on_root(h, 0, Self::greatest(h), b);
        }
        assert forall|i: int| 0 <= i < self.slots.len() implies self.is_present(i)
            && #[trigger] self.has_ancestor(i, self.root.unwrap() as int) by {
            self.lemma_clean_tree_hangs_on_root(h, i, Self::greatest(h), b);
            assert(!self.slots[i].is_dead());
        }
    }

    // What follows lets a caller show that a detached subtree does not hold
    // the node that it is about to be attached to.
    /// What lies above a node is the node itself or lies above its owner.
    pub proof fn lemma_above_is_self_or_above_owner(self, i: int, a: int)
        requires
            self.has_ancestor(i, a),
            a != i,
        ensures
            self.parent_of(i) is Some,
            self.has_ancestor(self.parent_of(i).unwrap(), a),
    {
        let steps = choose|steps: nat| self.ancestor(i, steps) == Some(a);
        assert(self.ancestor(i, 0) == Some(i));
        if self.parent_of(i) is None {
            self.lemma_ancestor_above_top(i, steps);
        } else {
            self.lemma_ancestor_of_owner(i, (steps - 1) as nat);
        }
    }

    /// A node without children lies above nothing but itself.
    pub proof fn lemma_childless_is_above_itself_only(self, i: int, a: int, steps: nat, b: nat)
        requires
            self.linked(b),
            self.is_present(a),
            forall|k: int| 0 <= k < b ==> (#[trigger] self.child(a, k)) is None,
            self.ancestor(i, steps) == Some(a),
        ensures
            i == a,
    {
        if steps > 0 {
            let below = self.ancestor(i, (steps - 1) as nat).unwrap();
            assert(self.parent_of(below) == Some(a));
            assert(self.tag_ok(below));
            assert(self.child(a, self.tag(below)->this_branch as int) is None);
        }
    }
}

} // verus!
