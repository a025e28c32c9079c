//! Counting slots: how many slots a tree without garbage has, and how many
//! a garbage collection leaves.

use crate::model::TreeView;
use crate::shape::Shape;
use vstd::prelude::*;
use vstd::set_lib::{lemma_int_range, lemma_map_size, set_int_range};

verus! {

impl<T> TreeView<T> {
    /// The node at `j` belongs to the tree of the root: going up from it
    /// leads to the root.
    pub open spec fn hangs_on_root(self, j: int) -> bool {
        &&& 0 <= j < self.slots.len()
        &&& self.root is Some
        &&& self.has_ancestor(j, self.root.unwrap() as int)
    }

    /// The positions of the nodes of the tree of the root.
    pub open spec fn in_tree(self) -> Set<int> {
        Set::new(|j: int| self.hangs_on_root(j))
    }

    /// Going up in a collected tree leads to the node that comes from where
    /// going up in the tree before the collection led.
    pub proof fn lemma_ancestor_kept(
        self,
        start: Self,
        origin: Seq<int>,
        i: int,
        steps: nat,
        b: nat,
    )
        requires
            self.linked(b),
            self.no_garbage(),
            start.linked(b),
            self.kept_from(start, origin, b),
            0 <= i < self.slots.len(),
            self.ancestor(i, steps) is Some,
        ensures
            0 <= self.ancestor(i, steps).unwrap() < self.slots.len(),
            start.ancestor(origin[i], steps) == Some(origin[self.ancestor(i, steps).unwrap()]),
        decreases steps,
    {
        if steps > 0 {
            let up = self.ancestor(i, (steps - 1) as nat);
            assert(up is Some);
            self.lemma_ancestor_kept(start, origin, i, (steps - 1) as nat, b);
            let u = up.unwrap();
            assert(!self.slots[u].is_dead());
            assert(self.node_kept(start, origin, u, b));
            assert(self.tag_ok(u));
        }
    }

    /// What hangs on the root before a collection is where a node of the
    /// collected tree comes from.
    pub proof fn lemma_tree_is_kept(
        self,
        start: Self,
        origin: Seq<int>,
        j: int,
        steps: nat,
        b: nat,
    )
        requires
            self.linked(b),
            self.no_garbage(),
            start.linked(b),
            self.kept_from(start, origin, b),
            0 <= j < start.slots.len(),
            start.root is Some,
            start.ancestor(j, steps) == Some(start.root.unwrap() as int),
        ensures
            exists|i: int| 0 <= i < self.slots.len() && #[trigger] origin[i] == j,
        decreases steps,
    {
        let root = start.root.unwrap() as int;
        assert(self.root is Some);
        let r = self.root.unwrap() as int;
        assert(origin[r] == root);
        if j != root {
            assert(start.ancestor(j, 0) == Some(j));
            if start.parent_of(j) is None {
                start.lemma_ancestor_above_top(j, steps);
            }
            let p = start.parent_of(j).unwrap();
            start.lemma_ancestor_of_owner(j, (steps - 1) as nat);
            assert(start.tag_ok(j));
            self.lemma_tree_is_kept(start, origin, p, (steps - 1) as nat, b);
            let ip = choose|ip: int| 0 <= ip < self.slots.len() && #[trigger] origin[ip] == p;
            assert(!self.slots[ip].is_dead());
            assert(self.node_kept(start, origin, ip, b));
            let k = start.tag(j)->this_branch as int;
            assert(start.slots[p].children().len() == b);
            assert(start.child(p, k) == Some(j as usize));
            assert(self.slots[ip].children().len() == b);
            assert(self.link_ok(ip, k));
            match self.child(ip, k) {
                Some(c) => {
                    assert(origin[c as int] == j);
                },
                None => {},
            }
        }
    }

    /// A garbage collection leaves as many slots as the tree of the root
    /// had nodes: `self` is the collected tree, `start` the tree before.
    pub proof fn lemma_collected_count(self, h: Seq<nat>, start: Self, b: nat)
        requires
            self.linked(b),
            self.ranked(h),
            self.is_clean(),
            start.linked(b),
            self.relocated_from(start, b),
        ensures
            start.in_tree().finite(),
            self.slots.len() == start.in_tree().len(),
    {
        let origin = choose|origin: Seq<int>| #[trigger] self.kept_from(start, origin, b);
        let n = self.slots.len() as int;
        let positions = set_int_range(0, n);
        let f = |i: int| origin[i];
        lemma_int_range(0, n);
        self.lemma_clean_tree_is_the_tree_of_the_root(h, b);
        assert forall|x1: int, x2: int|
            positions.contains(x1) && positions.contains(x2) && #[trigger] f(x1) == #[trigger] f(
                x2,
            ) implies x1 == x2 by {
            if x1 < x2 {
                assert(origin[x1] != origin[x2]);
            } else if x2 < x1 {
                assert(origin[x2] != origin[x1]);
            }
        }
        assert forall|j: int| positions.map(f).contains(j) <==> start.in_tree().contains(j) by {
            if positions.map(f).contains(j) {
                let i = choose|i: int| positions.contains(i) && j == f(i);
                let r = self.root.unwrap() as int;
                assert(self.has_ancestor(i, r));
                let steps = choose|steps: nat| self.ancestor(i, steps) == Some(r);
                self.lemma_ancestor_kept(start, origin, i, steps, b);
                assert(start.ancestor(j, steps) == Some(start.root.unwrap() as int));
            }
            if start.in_tree().contains(j) {
                let steps = choose|steps: nat|
                    start.ancestor(j, steps) == Some(start.root.unwrap() as int);
                self.lemma_tree_is_kept(start, origin, j, steps, b);
                let i = choose|i: int| 0 <= i < self.slots.len() && #[trigger] origin[i] == j;
                assert(positions.contains(i) && j == f(i));
            }
        }
        assert(positions.map(f) =~= start.in_tree());
        lemma_map_size(positions, start.in_tree(), f);
    }

    /// What lies above a node has the node below it.
    pub proof fn lemma_above_has_below(self, h: Seq<nat>, i: int, a: int, steps: nat)
        requires
            self.linked(2),
            self.ranked(h),
            self.is_present(i),
            self.is_present(a),
            self.ancestor(i, steps) == Some(a),
        ensures
            self.below(h, a).contains(i),
        decreases steps,
    {
        if steps == 0 {
            self.lemma_shape_unfold(h, i);
        } else {
            let u = self.ancestor(i, (steps - 1) as nat).unwrap();
            self.lemma_above_has_below(h, i, u, (steps - 1) as nat);
            self.lemma_below(h, u, i);
            assert(self.tag_ok(u));
            self.lemma_shape_unfold(h, a);
            let k = self.tag(u)->this_branch as int;
            assert(self.child(a, k) == Some(u as usize));
        }
    }
}

impl<T: Ord> TreeView<T> {
    /// As many positions lie at and below a node as the shape below it has
    /// nodes.
    pub proof fn lemma_below_count(self, h: Seq<nat>, i: int)
        requires
            self.linked(2),
            self.ranked(h),
            self.is_present(i),
        ensures
            self.below(h, i).finite(),
            self.below(h, i).len() == self.shape_at(h, i).count(),
        decreases crate::reading::height_at(h, i),
    {
        broadcast use vstd::set_lib::lemma_set_disjoint_lens;

        self.lemma_shape_unfold(h, i);
        let first = self.below_of(h, self.child(i, 0));
        let second = self.below_of(h, self.child(i, 1));
        assert(Shape::<T>::Leaf.count() == 0);
        if self.child(i, 0) is Some {
            let c = self.child(i, 0).unwrap() as int;
            self.lemma_below_count(h, c);
            if first.contains(i) {
                self.lemma_below(h, c, i);
            }
        }
        if self.child(i, 1) is Some {
            let d = self.child(i, 1).unwrap() as int;
            self.lemma_below_count(h, d);
            if second.contains(i) {
                self.lemma_below(h, d, i);
            }
        }
        assert(first.disjoint(second)) by {
            assert forall|j: int| first.contains(j) implies !second.contains(j) by {
                if second.contains(j) {
                    let c = self.child(i, 0).unwrap() as int;
                    let d = self.child(i, 1).unwrap() as int;
                    self.lemma_branches_apart(h, c, d, j);
                }
            }
        }
        assert((first + second).len() == first.len() + second.len());
        assert(self.below(h, i) == (first + second).insert(i));
    }

    /// A tree of branch factor two without garbage has as many slots as
    /// the shape below its root has nodes.
    pub proof fn lemma_clean_count(self, h: Seq<nat>)
        requires
            self.linked(2),
            self.ranked(h),
            self.is_clean(),
        ensures
            self.slots.len() == self.shape_of(h, self.root).count(),
    {
        self.lemma_clean_tree_is_the_tree_of_the_root(h, 2);
        assert(Shape::<T>::Leaf.count() == 0);
        if self.root is Some {
            let r = self.root.unwrap() as int;
            let n = self.slots.len() as int;
            self.lemma_below_count(h, r);
            lemma_int_range(0, n);
            assert forall|j: int| self.below(h, r).contains(j) <==> set_int_range(0, n).contains(
                j,
            ) by {
                if self.below(h, r).contains(j) {
                    self.lemma_below(h, r, j);
                }
                if 0 <= j < n {
                    assert(self.has_ancestor(j, r));
                    let steps = choose|steps: nat| self.ancestor(j, steps) == Some(r);
                    self.lemma_above_has_below(h, j, r, steps);
                }
            }
            assert(self.below(h, r) =~= set_int_range(0, n));
        }
    }
}

} // verus!
